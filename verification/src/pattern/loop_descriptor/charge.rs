//! What one iteration of a loop costs.
//!
//! A cost counter is a property whose bodies add a literal to one and the same
//! variable throughout.

use crate::number;
use crate::pattern::loop_descriptor::dispatch;
use crate::pattern::loop_descriptor::family;
use crate::pattern::loop_descriptor::family::{Dispatch, DispatchFamily, MemberModel};
use crate::pattern::loop_descriptor::shapes;
use crate::pattern::loop_descriptor::{ChargeModel, CycleCharge};
use crate::types::{CalcKind, Expr, ExprModel};
use vstd::hash_map::StringHashMap;
use vstd::prelude::*;

verus! {

broadcast use vstd::std_specs::hash::group_hash_axioms;

/// Variable and literal of `variable + literal`, in either order.
pub open spec fn var_plus_literal(e: ExprModel) -> Option<(Seq<char>, i32)> {
    match e.binary(CalcKind::Add) {
        Some((ExprModel::Var(name, _), ExprModel::Number(bits))) => Some(
            (name, number::as_i32(bits)),
        ),
        Some((ExprModel::Number(bits), ExprModel::Var(name, _))) => Some(
            (name, number::as_i32(bits)),
        ),
        _ => None,
    }
}

/// Matches `variable + literal`.
fn decompose_var_plus_literal(e: &Expr) -> (r: Option<(&String, i32)>)
    ensures
        match r {
            Some((s, k)) => var_plus_literal(e.view()) == Some((s@, k)),
            None => var_plus_literal(e.view()) is None,
        },
{
    match shapes::sum_of(e) {
        Some((Expr::Var { name, .. }, Expr::Literal(v))) => Some((name, v.to_i32())),
        Some((Expr::Literal(v), Expr::Var { name, .. })) => Some((name, v.to_i32())),
        _ => None,
    }
}

/// Does a body add a literal to `x`?
pub open spec fn adds_to(e: ExprModel, x: Seq<char>) -> bool {
    var_plus_literal(e) matches Some(p) && p.0 == x
}

/// The numbers whose bodies add a literal to `x`.
pub open spec fn users(bodies: Map<i64, ExprModel>, x: Seq<char>) -> Set<i64> {
    bodies.dom().filter(|k: i64| adds_to(bodies[k], x))
}

/// Does some body add to `x` whose number is smaller than those of all bodies
/// that add to `y`?
pub open spec fn starts_before(
    bodies: Map<i64, ExprModel>,
    x: Seq<char>,
    y: Seq<char>,
) -> bool {
    exists|k: i64|
        #![trigger users(bodies, x).contains(k)]
        users(bodies, x).contains(k) && forall|j: i64| #[trigger]
            users(bodies, y).contains(j) ==> k < j
}

/// Is `x` the variable that most bodies add a literal to? Of several the one that
/// the body with the smallest number adds to is.
pub open spec fn most_used(bodies: Map<i64, ExprModel>, x: Seq<char>) -> bool {
    users(bodies, x).len() > 0 && forall|y: Seq<char>|
        users(bodies, y).len() > 0 && y != x ==> (#[trigger] users(bodies, y)).len() < users(
            bodies,
            x,
        ).len() || (users(bodies, y).len() == users(bodies, x).len() && starts_before(bodies, x, y))
}

/// The variable that most bodies add a literal to, with how many do.
pub open spec fn shared_var(bodies: Map<i64, ExprModel>) -> Option<(Seq<char>, nat)> {
    if exists|x: Seq<char>| most_used(bodies, x) {
        let x = choose|x: Seq<char>| most_used(bodies, x);
        Some((x, users(bodies, x).len()))
    } else {
        None
    }
}

/// There is at most one most used variable.
pub(super) proof fn lemma_most_used_unique(bodies: Map<i64, ExprModel>, x: Seq<char>, y: Seq<char>)
    requires
        most_used(bodies, x),
        most_used(bodies, y),
    ensures
        x == y,
{
    if x != y {
        assert(users(bodies, y).len() <= users(bodies, x).len());
        assert(users(bodies, x).len() <= users(bodies, y).len());
        assert(starts_before(bodies, x, y) && starts_before(bodies, y, x));
        let j = choose|j: i64|
            #![trigger users(bodies, x).contains(j)]
            users(bodies, x).contains(j) && forall|i: i64| #[trigger]
                users(bodies, y).contains(i) ==> j < i;
        let k = choose|k: i64|
            #![trigger users(bodies, y).contains(k)]
            users(bodies, y).contains(k) && forall|i: i64| #[trigger]
                users(bodies, x).contains(i) ==> k < i;
        assert(j < k && k < j);
    }
}

/// Whoever starts before `y` starts before everyone that `y` starts before.
proof fn lemma_starts_before_all(
    bodies: Map<i64, ExprModel>,
    x: Seq<char>,
    y: Seq<char>,
    z: Seq<char>,
)
    requires
        starts_before(bodies, x, y),
        starts_before(bodies, y, z),
    ensures
        starts_before(bodies, x, z),
{
    let j = choose|j: i64|
        #![trigger users(bodies, x).contains(j)]
        users(bodies, x).contains(j) && forall|i: i64| #[trigger]
            users(bodies, y).contains(i) ==> j < i;
    let k = choose|k: i64|
        #![trigger users(bodies, y).contains(k)]
        users(bodies, y).contains(k) && forall|i: i64| #[trigger]
            users(bodies, z).contains(i) ==> k < i;
    assert(j < k);
}

/// Is `k` the smallest number whose body adds to `x`?
spec fn is_start(bodies: Map<i64, ExprModel>, x: Seq<char>, k: i64) -> bool {
    users(bodies, x).contains(k) && forall|j: i64| #[trigger]
        users(bodies, x).contains(j) ==> k <= j
}

/// Of two variables the one with the smaller start starts before the other.
proof fn lemma_starts_compare(
    bodies: Map<i64, ExprModel>,
    x: Seq<char>,
    j: i64,
    y: Seq<char>,
    k: i64,
)
    requires
        x != y,
        is_start(bodies, x, j),
        is_start(bodies, y, k),
    ensures
        j != k,
        j < k ==> starts_before(bodies, x, y),
{
    if j < k {
        assert(users(bodies, x).contains(j));
        assert forall|i: i64| #[trigger] users(bodies, y).contains(i) implies j < i by {}
    }
}

/// Counting along the numbers of a dispatch is counting users.
proof fn lemma_users_grow(
    bodies: Map<i64, ExprModel>,
    keys: Seq<i64>,
    list: Seq<Seq<char>>,
    k: i64,
    x: Seq<char>,
)
    requires
        !keys.contains(k),
        dispatch::times(list, x) == keys.to_set().filter(|j: i64| adds_to(bodies[j], x)).len(),
    ensures
        match var_plus_literal(bodies[k]) {
            Some(p) => dispatch::times(list.push(p.0), x) == keys.push(k).to_set().filter(
                |j: i64| adds_to(bodies[j], x),
            ).len(),
            None => dispatch::times(list, x) == keys.push(k).to_set().filter(
                |j: i64| adds_to(bodies[j], x),
            ).len(),
        },
{
    let before = keys.to_set();
    let now = keys.push(k).to_set();
    let uses = |j: i64| adds_to(bodies[j], x);
    keys.lemma_push_to_set_commute(k);
    assert(now == before.insert(k));
    vstd::seq_lib::seq_to_set_is_finite(keys);
    if adds_to(bodies[k], x) {
        assert(now.filter(uses) =~= before.filter(uses).insert(k));
    } else {
        assert(now.filter(uses) =~= before.filter(uses));
    }
    if let Some(p) = var_plus_literal(bodies[k]) {
        assert(list.push(p.0).drop_last() =~= list);
    }
}

/// Do the numbers in `at` belong to bodies that add to the variables of `names`,
/// place by place, and are those of the numbers in `keys` all there?
spec fn uses_listed(
    bodies: Map<i64, ExprModel>,
    names: Seq<Seq<char>>,
    at: Seq<i64>,
    keys: Seq<i64>,
) -> bool {
    &&& at.len() == names.len()
    &&& forall|j: int|
        0 <= j < at.len() ==> bodies.contains_key(#[trigger] at[j]) && adds_to(
            bodies[at[j]],
            names[j],
        )
    &&& forall|i: int|
        0 <= i < keys.len() && var_plus_literal(bodies[#[trigger] keys[i]]) is Some ==> at.contains(
            keys[i],
        )
}

/// Finds the smallest number at which each variable is used.
fn find_starts<'a>(names: &Vec<&'a String>, at: &Vec<i64>, Ghost(bodies): Ghost<
    Map<i64, ExprModel>,
>, Ghost(keys): Ghost<Seq<i64>>) -> (r: StringHashMap<i64>)
    requires
        uses_listed(bodies, dispatch::refs_view(names@), at@, keys),
        forall|k: i64| bodies.contains_key(k) ==> #[trigger] keys.contains(k),
    ensures
        forall|i: int|
            0 <= i < names@.len() ==> r@.contains_key((#[trigger] names@[i])@) && is_start(
                bodies,
                names@[i]@,
                r@[names@[i]@],
            ),
{
    let ghost all = dispatch::refs_view(names@);
    let mut starts: StringHashMap<i64> = StringHashMap::new();
    let mut n: usize = 0;
    while n < names.len()
        invariant
            n <= names@.len(),
            all == dispatch::refs_view(names@),
            all.len() == at@.len() == names@.len(),
            forall|j: int|
                0 <= j < n ==> starts@.contains_key(#[trigger] all[j]) && starts@[all[j]] <= at@[j],
            forall|x: Seq<char>| #[trigger]
                starts@.contains_key(x) ==> exists|j: int|
                    0 <= j < n && #[trigger] all[j] == x && at@[j] == starts@[x],
        decreases names@.len() - n,
    {
        let name: &String = names[n];
        let k: i64 = at[n];
        assert(all[n as int] == name@);
        let ghost before = starts@;
        let smaller: bool = match starts.get(name.as_str()) {
            Some(low) => k < *low,
            None => true,
        };
        if smaller {
            starts.insert(name.clone(), k);
        }
        proof {
            assert forall|x: Seq<char>| #[trigger] starts@.contains_key(x) implies exists|j: int|
                0 <= j < n + 1 && #[trigger] all[j] == x && at@[j] == starts@[x] by {
                if x == name@ && smaller {
                    assert(all[n as int] == x && at@[n as int] == starts@[x]);
                } else {
                    assert(before.contains_key(x));
                    let j = choose|j: int|
                        0 <= j < n && #[trigger] all[j] == x && at@[j] == before[x];
                    assert(all[j] == x);
                }
            }
        }
        n += 1;
    }
    proof {
        assert forall|i: int| 0 <= i < names@.len() implies starts@.contains_key(
            (#[trigger] names@[i])@,
        ) && is_start(bodies, names@[i]@, starts@[names@[i]@]) by {
            let x = names@[i]@;
            assert(all[i] == x);
            let j = choose|j: int| 0 <= j < n && #[trigger] all[j] == x && at@[j] == starts@[x];
            assert(adds_to(bodies[at@[j]], all[j]));
            assert forall|k: i64| #[trigger] users(bodies, x).contains(k) implies starts@[x]
                <= k by {
                assert(keys.contains(k));
                let m = choose|m: int| 0 <= m < keys.len() && keys[m] == k;
                assert(at@.contains(keys[m]));
                let p = choose|p: int| 0 <= p < at@.len() && at@[p] == k;
                assert(adds_to(bodies[at@[p]], all[p]));
                assert(all[p] == x);
            }
        }
    }
    starts
}

/// Finds the variable that most bodies add a literal to, with how many do.
fn best_shared_var_for_self_add_literal<'a>(d: &Dispatch<'a>) -> (r: Option<(&'a String, usize)>)
    requires
        d.wf(),
    ensures
        match r {
            Some((x, n)) => shared_var(d.view().bodies) == Some((x@, n as nat)),
            None => shared_var(d.view().bodies) is None,
        },
{
    let ghost bodies = d.view().bodies;
    let mut names: Vec<&'a String> = Vec::new();
    let mut at: Vec<i64> = Vec::new();
    let mut i: usize = 0;
    assert(dispatch::refs_view(names@) =~= Seq::<Seq<char>>::empty());
    assert forall|x: Seq<char>| #[trigger]
        dispatch::times(dispatch::refs_view(names@), x) == d.keys@.subrange(0, 0).to_set().filter(
            |j: i64| adds_to(bodies[j], x),
        ).len() by {
        assert(d.keys@.subrange(0, 0).to_set().filter(|j: i64| adds_to(bodies[j], x))
            =~= Set::<i64>::empty());
    }
    while i < d.keys.len()
        invariant
            i <= d.keys@.len(),
            d.wf(),
            bodies == d.view().bodies,
            names@.len() <= i,
            uses_listed(
                bodies,
                dispatch::refs_view(names@),
                at@,
                d.keys@.subrange(0, i as int),
            ),
            forall|x: Seq<char>| #[trigger]
                dispatch::times(dispatch::refs_view(names@), x) == d.keys@.subrange(
                    0,
                    i as int,
                ).to_set().filter(|j: i64| adds_to(bodies[j], x)).len(),
        decreases d.keys@.len() - i,
    {
        let k: i64 = d.keys[i];
        let ghost earlier = d.keys@.subrange(0, i as int);
        let ghost list = dispatch::refs_view(names@);
        let ghost listed = at@;
        assert(d.keys@.contains(k));
        let body: &'a Expr = match d.bodies.get(&k) {
            Some(e) => *e,
            None => {
                return None;
            },
        };
        assert(bodies[k] == body.view());
        assert(!earlier.contains(k)) by {
            if earlier.contains(k) {
                let j = choose|j: int| 0 <= j < earlier.len() && earlier[j] == k;
                assert(d.keys@[j] == d.keys@[i as int]);
            }
        }
        assert(d.keys@.subrange(0, i + 1) =~= earlier.push(k));
        match decompose_var_plus_literal(body) {
            Some((name, _)) => {
                names.push(name);
                at.push(k);
                assert(dispatch::refs_view(names@) =~= list.push(name@));
                assert(at@[listed.len() as int] == k);
            },
            None => {},
        }
        proof {
            let now = d.keys@.subrange(0, i + 1);
            assert forall|m: int|
                0 <= m < now.len() && var_plus_literal(
                    bodies[#[trigger] now[m]],
                ) is Some implies at@.contains(now[m]) by {
                if m < i {
                    assert(earlier[m] == now[m]);
                    assert(listed.contains(earlier[m]));
                    let p = choose|p: int| 0 <= p < listed.len() && listed[p] == earlier[m];
                    assert(at@[p] == now[m]);
                }
            }
        }
        assert forall|x: Seq<char>| #[trigger]
            dispatch::times(dispatch::refs_view(names@), x) == d.keys@.subrange(
                0,
                i + 1,
            ).to_set().filter(|j: i64| adds_to(bodies[j], x)).len() by {
            assert(dispatch::times(list, x) == earlier.to_set().filter(
                |j: i64| adds_to(bodies[j], x),
            ).len());
            lemma_users_grow(bodies, earlier, list, k, x);
        }
        i += 1;
    }
    let ghost all = dispatch::refs_view(names@);
    assert(d.keys@.subrange(0, i as int) =~= d.keys@);
    assert(d.keys@.to_set() =~= bodies.dom());
    assert forall|x: Seq<char>| #[trigger] dispatch::times(all, x) == users(bodies, x).len() by {
        assert(users(bodies, x) =~= d.keys@.to_set().filter(|j: i64| adds_to(bodies[j], x)));
    }
    let counts = dispatch::count_all(&names);
    let starts: StringHashMap<i64> = find_starts(&names, &at, Ghost(bodies), Ghost(d.keys@));
    let mut best: Option<(&'a String, usize, i64)> = None;
    let mut n: usize = 0;
    while n < names.len()
        invariant
            n <= names@.len(),
            all == dispatch::refs_view(names@),
            forall|x: Seq<char>| #[trigger] dispatch::times(all, x) == users(bodies, x).len(),
            forall|x: Seq<char>| #[trigger]
                counts@.contains_key(x) ==> counts@[x] == dispatch::times(all, x),
            forall|x: Seq<char>|
                !counts@.contains_key(x) ==> #[trigger] dispatch::times(all, x) == 0,
            forall|i: int|
                0 <= i < names@.len() ==> starts@.contains_key((#[trigger] names@[i])@) && is_start(
                    bodies,
                    names@[i]@,
                    starts@[names@[i]@],
                ),
            match best {
                Some((x, c, low)) => is_start(bodies, x@, low) && c == users(bodies, x@).len() && c
                    > 0 && forall|j: int|
                    0 <= j < n && #[trigger] all[j] != x@ ==> users(bodies, all[j]).len() < c || (
                    users(bodies, all[j]).len() == c && starts_before(bodies, x@, all[j])),
                None => n == 0,
            },
        decreases names@.len() - n,
    {
        let name: &'a String = names[n];
        assert(all[n as int] == name@);
        let c: usize = dispatch::count_of(&counts, name.as_str());
        assert(c == dispatch::times(all, name@));
        let start: i64 = match starts.get(name.as_str()) {
            Some(k) => *k,
            None => 0,
        };
        assert(is_start(bodies, name@, start));
        proof {
            lemma_listed(all, n as int);
        }
        let better: bool = match best {
            Some((_, m, low)) => c > m || (c == m && start < low),
            None => true,
        };
        proof {
            if let Some((x, m, low)) = best {
                if name@ != x@ {
                    lemma_starts_compare(bodies, name@, start, x@, low);
                    lemma_starts_compare(bodies, x@, low, name@, start);
                }
                if better {
                    assert forall|j: int| 0 <= j <= n && #[trigger] all[j] != name@ implies users(
                        bodies,
                        all[j],
                    ).len() < c || (users(bodies, all[j]).len() == c && starts_before(
                        bodies,
                        name@,
                        all[j],
                    )) by {
                        if c == m && all[j] != x@ && users(bodies, all[j]).len() == c {
                            lemma_starts_before_all(bodies, name@, x@, all[j]);
                        }
                    }
                }
            }
        }
        if better {
            best = Some((name, c, start));
        }
        n += 1;
    }
    proof {
        match best {
            Some((x, c, _)) => {
                assert forall|y: Seq<char>| users(bodies, y).len() > 0 && y != x@ implies (
                #[trigger] users(bodies, y)).len() < users(bodies, x@).len() || (users(
                    bodies,
                    y,
                ).len() == users(bodies, x@).len() && starts_before(bodies, x@, y)) by {
                    assert(dispatch::times(all, y) > 0);
                    lemma_counted_is_listed(all, y);
                    let j = choose|j: int| 0 <= j < all.len() && all[j] == y;
                    assert(all[j] == y);
                }
                assert(most_used(bodies, x@));
                let chosen = choose|x: Seq<char>| most_used(bodies, x);
                lemma_most_used_unique(bodies, chosen, x@);
            },
            None => {
                assert forall|x: Seq<char>| !most_used(bodies, x) by {
                    assert(dispatch::times(all, x) == 0);
                }
            },
        }
    }
    match best {
        Some((x, c, _)) => Some((x, c)),
        None => None,
    }
}

/// A listed item is counted.
proof fn lemma_listed(list: Seq<Seq<char>>, i: int)
    requires
        0 <= i < list.len(),
    ensures
        dispatch::times(list, list[i]) > 0,
    decreases list.len(),
{
    if i < list.len() - 1 {
        lemma_listed(list.drop_last(), i);
    }
}

/// A counted item is listed.
proof fn lemma_counted_is_listed(list: Seq<Seq<char>>, x: Seq<char>)
    requires
        dispatch::times(list, x) > 0,
    ensures
        exists|j: int| 0 <= j < list.len() && list[j] == x,
    decreases list.len(),
{
    if list.last() == x {
        assert(list[list.len() - 1] == x);
    } else {
        lemma_counted_is_listed(list.drop_last(), x);
        let j = choose|j: int| 0 <= j < list.drop_last().len() && list.drop_last()[j] == x;
        assert(list[j] == x);
    }
}

/// The member whose bodies agree most on a variable, among the first `n`; of
/// several the first.
pub open spec fn cost_member(members: Seq<MemberModel>, n: nat) -> Option<int>
    decreases n,
{
    if n == 0 {
        None
    } else {
        let best = cost_member(members, (n - 1) as nat);
        match (shared_var(members[n - 1].bodies), best) {
            (None, _) => best,
            (Some(_), None) => Some(n - 1),
            (Some((_, count)), Some(b)) => {
                let most = (shared_var(members[b].bodies)->0).1;
                if count > most {
                    Some(n - 1)
                } else {
                    best
                }
            },
        }
    }
}

/// The cost of one iteration for `k`: what the cost counter's body adds to the
/// variable that its bodies share.
pub open spec fn charge(members: Seq<MemberModel>, k: i64) -> Option<ChargeModel> {
    match cost_member(members, members.len()) {
        Some(b) => {
            let m = members[b];
            if m.bodies.contains_key(k) {
                match var_plus_literal(m.bodies[k]) {
                    Some((x, per_iter)) => if x == (shared_var(m.bodies)->0).0 {
                        Some(ChargeModel { property: m.property, per_iter })
                    } else {
                        None
                    },
                    None => None,
                }
            } else {
                None
            }
        },
        None => None,
    }
}

/// Finds the cost of one iteration.
pub fn extract_per_iter_cycles(family: &DispatchFamily<'_>, k: i64) -> (r: Option<CycleCharge>)
    requires
        family.wf(),
    ensures
        match r {
            Some(c) => charge(family.view().members, k) == Some(c.view()),
            None => charge(family.view().members, k) is None,
        },
{
    let ghost all = family.view().members;
    let mut best: Option<usize> = None;
    let mut shared: Option<(&String, usize)> = None;
    let mut n: usize = 0;
    while n < family.members.len()
        invariant
            n <= family.members@.len(),
            family.wf(),
            all == family::members_view(family.members@),
            match best {
                Some(b) => b < n && cost_member(all, n as nat) == Some(b as int) && (
                shared matches Some(s) && shared_var(all[b as int].bodies) == Some(
                    (s.0@, s.1 as nat),
                )),
                None => cost_member(all, n as nat) is None,
            },
        decreases family.members@.len() - n,
    {
        let m = &family.members[n];
        assert(all[n as int] == m.view());
        if let Some((x, count)) = best_shared_var_for_self_add_literal(m.dispatch) {
            let better: bool = match (best, shared) {
                (Some(_), Some((_, most))) => count > most,
                _ => true,
            };
            if better {
                best = Some(n);
                shared = Some((x, count));
            }
        }
        n += 1;
    }
    match (best, shared) {
        (Some(b), Some((shared_x, _))) => {
            let m = &family.members[b];
            assert(all[b as int] == m.view());
            match m.body(k) {
                Some(body) => match decompose_var_plus_literal(body) {
                    Some((x, per_iter)) => if *x == *shared_x {
                        Some(CycleCharge { property: m.property.clone(), per_iter })
                    } else {
                        None
                    },
                    None => None,
                },
                None => None,
            }
        },
        _ => None,
    }
}

} // verus!

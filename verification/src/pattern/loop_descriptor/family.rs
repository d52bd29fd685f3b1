//! Dispatch families: the properties that dispatch on the same key property.

use crate::number;
use crate::pattern::loop_descriptor::dispatch;
use crate::tables;
use crate::types;
use crate::types::{Assignment, AssignmentModel, BranchModel, Expr, ExprModel, StyleBranch, StyleTest};
use std::collections::HashMap;
use vstd::hash_map::StringHashMap;
use vstd::hash_set::StringHashSet;
use vstd::prelude::*;

verus! {

broadcast use vstd::std_specs::hash::group_hash_axioms;

// ---------------------------------------------------------------------------
// The dispatch of one assignment
// ---------------------------------------------------------------------------

/// A dispatch: its key property, and the body for each number it tests.
#[verifier::ext_equal]
pub struct DispatchModel {
    pub key: Seq<char>,
    pub bodies: Map<i64, ExprModel>,
}

/// Number and body of each branch that tests `key` against a literal.
pub open spec fn bodies_for(branches: Seq<BranchModel>, key: Seq<char>) -> Seq<(i64, ExprModel)>
    decreases branches.len(),
{
    if branches.len() == 0 {
        Seq::empty()
    } else {
        let before = bodies_for(branches.drop_last(), key);
        match branches.last().literal_test() {
            Some((property, k)) => if property == key {
                before.push((k, branches.last().body))
            } else {
                before
            },
            None => before,
        }
    }
}

/// The dispatch inside an assigned expression. Of two branches for one number
/// the first one counts.
pub open spec fn dispatch_in(value: ExprModel) -> Option<DispatchModel> {
    match dispatch::inner_dispatch(value) {
        Some(ExprModel::Cond(branches, _)) => match dispatch::dominant_key(branches) {
            Some(key) => Some(
                DispatchModel { key, bodies: tables::first_of(bodies_for(branches, key)) },
            ),
            None => None,
        },
        _ => None,
    }
}

/// A dispatch by reference.
pub struct Dispatch<'a> {
    /// The key property.
    pub key: &'a String,
    /// The numbers that have a body.
    pub keys: Vec<i64>,
    /// The bodies.
    pub bodies: HashMap<i64, &'a Expr>,
}

impl<'a> Dispatch<'a> {
    /// The value of a dispatch.
    pub open spec fn view(&self) -> DispatchModel {
        DispatchModel {
            key: self.key@,
            bodies: self.bodies@.map_values(|e: &'a Expr| e.view()),
        }
    }

    /// The numbers are those that have a body, each once.
    pub open spec fn wf(&self) -> bool {
        &&& forall|k: i64| self.bodies@.contains_key(k) <==> #[trigger] self.keys@.contains(k)
        &&& self.keys@.no_duplicates()
    }
}

/// Reads the dispatch inside an assigned expression.
pub fn extract_single_key_dispatch<'a>(value: &'a Expr) -> (r: Option<Dispatch<'a>>)
    ensures
        match r {
            Some(d) => d.wf() && dispatch_in(value.view()) == Some(d.view()),
            None => dispatch_in(value.view()) is None,
        },
{
    let found: &'a Expr = match dispatch::find_inner_dispatch(value) {
        Some(e) => e,
        None => {
            return None;
        },
    };
    match found {
        Expr::StyleCondition { branches, fallback } => {
            let ghost m = types::branches_view(branches@);
            assert(found.view() == ExprModel::Cond(m, Box::new(fallback.view())));
            let (best, _total): (Option<&'a String>, usize) = dispatch::find_dominant(branches);
            let key: &'a String = match best {
                Some(k) => k,
                None => {
                    return None;
                },
            };
            let mut keys: Vec<i64> = Vec::new();
            let mut bodies: HashMap<i64, &'a Expr> = HashMap::new();
            let mut i: usize = 0;
            assert(m.subrange(0, 0) =~= Seq::<BranchModel>::empty());
            assert(bodies@.map_values(|e: &'a Expr| e.view()) =~= Map::<i64, ExprModel>::empty());
            while i < branches.len()
                invariant
                    i <= branches@.len(),
                    m == types::branches_view(branches@),
                    forall|k: i64| bodies@.contains_key(k) <==> #[trigger] keys@.contains(k),
                    keys@.no_duplicates(),
                    bodies@.map_values(|e: &'a Expr| e.view()) == tables::first_of(
                        bodies_for(m.subrange(0, i as int), key@),
                    ),
                decreases branches@.len() - i,
            {
                let b: &'a StyleBranch = &branches[i];
                assert(m[i as int] == b.view());
                assert(m.subrange(0, i + 1).drop_last() =~= m.subrange(0, i as int));
                assert(m.subrange(0, i + 1).last() == b.view());
                if let StyleTest::Single { property, value: Expr::Literal(v) } = &b.condition {
                    if *property == *key {
                        let k: i64 = v.to_i64();
                        let body: &'a Expr = b.body();
                        let ghost before = bodies@;
                        let ghost listed = keys@;
                        assert(before.contains_key(k) <==> listed.contains(k));
                        if !bodies.contains_key(&k) {
                            keys.push(k);
                            bodies.insert(k, body);
                        }
                        proof {
                            let pairs = bodies_for(m.subrange(0, i + 1), key@);
                            assert(pairs.drop_last() =~= bodies_for(m.subrange(0, i as int), key@));
                            if !before.contains_key(k) {
                                assert(bodies@.map_values(|e: &'a Expr| e.view())
                                    =~= before.map_values(|e: &'a Expr| e.view()).insert(
                                    k,
                                    body.view(),
                                ));
                            }
                            assert forall|x: i64| bodies@.contains_key(x)
                                <==> #[trigger] keys@.contains(x) by {
                                if !before.contains_key(k) {
                                    assert(keys@[listed.len() as int] == k);
                                } else {
                                    assert(listed.contains(k));
                                }
                                if listed.contains(x) {
                                    let j = choose|j: int|
                                        0 <= j < listed.len() && listed[j] == x;
                                    assert(keys@[j] == x);
                                }
                                if keys@.contains(x) && x != k {
                                    let j = choose|j: int| 0 <= j < keys@.len() && keys@[j] == x;
                                    assert(listed[j] == x);
                                }
                            }
                        }
                    }
                }
                i += 1;
            }
            assert(m.subrange(0, i as int) =~= m);
            Some(Dispatch { key, keys, bodies })
        },
        _ => {
            proof {
                types::lemma_calc(found);
            }
            None
        },
    }
}

// ---------------------------------------------------------------------------
// Families
// ---------------------------------------------------------------------------

/// One property of a family: where it is assigned, and its bodies.
#[verifier::ext_equal]
pub struct MemberModel {
    pub index: int,
    pub property: Seq<char>,
    pub bodies: Map<i64, ExprModel>,
}

/// A family: its key property and its members in source order.
#[verifier::ext_equal]
pub struct FamilyModel {
    pub key: Seq<char>,
    pub members: Seq<MemberModel>,
}

/// Does assignment `i` dispatch on `key`?
pub open spec fn dispatches_on(v: Seq<AssignmentModel>, i: int, key: Seq<char>) -> bool {
    dispatch_in(v[i].value) matches Some(d) && d.key == key
}

/// Does assignment `i` dispatch on `key`, without a later assignment of the same
/// property that does?
pub open spec fn counts_for(v: Seq<AssignmentModel>, i: int, key: Seq<char>) -> bool {
    dispatches_on(v, i, key) && forall|j: int|
        i < j < v.len() && dispatches_on(v, j, key) ==> (#[trigger] v[j]).property != v[i].property
}

/// The members of the family of `key` among the first `n` assignments.
pub open spec fn members_among(v: Seq<AssignmentModel>, key: Seq<char>, n: nat) -> Seq<MemberModel>
    decreases n,
{
    if n == 0 {
        Seq::empty()
    } else {
        let before = members_among(v, key, (n - 1) as nat);
        if counts_for(v, n - 1, key) {
            before.push(
                MemberModel {
                    index: n - 1,
                    property: v[n - 1].property,
                    bodies: dispatch_in(v[n - 1].value)->0.bodies,
                },
            )
        } else {
            before
        }
    }
}

/// The members of the family of `key`.
pub open spec fn members_of(v: Seq<AssignmentModel>, key: Seq<char>) -> Seq<MemberModel> {
    members_among(v, key, v.len())
}

/// How many bodies members have in all.
pub open spec fn body_count(members: Seq<MemberModel>) -> nat
    decreases members.len(),
{
    if members.len() == 0 {
        0
    } else {
        body_count(members.drop_last()) + members.last().bodies.len()
    }
}

/// Does the family of `a` have more members than that of `b`, or as many members
/// and more bodies?
pub open spec fn outranks(v: Seq<AssignmentModel>, a: Seq<char>, b: Seq<char>) -> bool {
    let x = members_of(v, a);
    let y = members_of(v, b);
    x.len() > y.len() || (x.len() == y.len() && body_count(x) > body_count(y))
}

/// The key of the largest family, of those whose key the first `n` assignments
/// mention; the first one of several.
pub open spec fn best_key(v: Seq<AssignmentModel>, n: nat) -> Option<Seq<char>>
    decreases n,
{
    if n == 0 {
        None
    } else {
        let best = best_key(v, (n - 1) as nat);
        match (dispatch_in(v[n - 1].value), best) {
            (None, _) => best,
            (Some(d), None) => Some(d.key),
            (Some(d), Some(k)) => if outranks(v, d.key, k) {
                Some(d.key)
            } else {
                best
            },
        }
    }
}

/// The family that a list of assignments is about: the largest one, if it has
/// two members or more.
pub open spec fn family_of(v: Seq<AssignmentModel>) -> Option<FamilyModel> {
    match best_key(v, v.len()) {
        Some(key) => if members_of(v, key).len() >= 2 {
            Some(FamilyModel { key, members: members_of(v, key) })
        } else {
            None
        },
        None => None,
    }
}

/// A member by reference.
pub struct FamilyMember<'a> {
    /// The property.
    pub property: &'a String,
    /// Where it is assigned.
    pub assignment_index: usize,
    /// Its dispatch.
    pub dispatch: &'a Dispatch<'a>,
}

impl<'a> FamilyMember<'a> {
    /// The value of a member.
    pub open spec fn view(&self) -> MemberModel {
        MemberModel {
            index: self.assignment_index as int,
            property: self.property@,
            bodies: self.dispatch.view().bodies,
        }
    }

    /// The body for a number.
    pub fn body(&self, k: i64) -> (r: Option<&'a Expr>)
        ensures
            match r {
                Some(e) => self.view().bodies.contains_key(k) && self.view().bodies[k] == e.view(),
                None => !self.view().bodies.contains_key(k),
            },
    {
        match self.dispatch.bodies.get(&k) {
            Some(e) => Some(*e),
            None => None,
        }
    }
}

/// The values of a list of members.
pub open spec fn members_view(v: Seq<FamilyMember<'_>>) -> Seq<MemberModel> {
    Seq::new(v.len(), |i: int| v[i].view())
}

/// A family by reference.
pub struct DispatchFamily<'a> {
    /// The key property.
    pub key_property: &'a String,
    /// The members in source order.
    pub members: Vec<FamilyMember<'a>>,
}

impl<'a> DispatchFamily<'a> {
    /// The value of a family.
    pub open spec fn view(&self) -> FamilyModel {
        FamilyModel { key: self.key_property@, members: members_view(self.members@) }
    }

    /// The members' dispatches list their numbers.
    pub open spec fn wf(&self) -> bool {
        forall|i: int| 0 <= i < self.members@.len() ==> (#[trigger] self.members@[i]).dispatch.wf()
    }
}

/// Do the entries of `found` stand for the dispatches of the assignments?
pub open spec fn reads(found: Seq<Option<Dispatch<'_>>>, v: Seq<AssignmentModel>) -> bool {
    &&& found.len() == v.len()
    &&& forall|i: int|
        0 <= i < v.len() ==> match #[trigger] found[i] {
            Some(d) => d.wf() && dispatch_in(v[i].value) == Some(d.view()),
            None => dispatch_in(v[i].value) is None,
        }
}

/// Reads the dispatch of every assignment.
pub fn read_dispatches<'a>(assignments: &'a [Assignment]) -> (r: Vec<Option<Dispatch<'a>>>)
    ensures
        reads(r@, types::assignments_view(assignments@)),
{
    let ghost v = types::assignments_view(assignments@);
    let mut out: Vec<Option<Dispatch<'a>>> = Vec::new();
    let mut i: usize = 0;
    while i < assignments.len()
        invariant
            i <= assignments@.len(),
            v == types::assignments_view(assignments@),
            out@.len() == i,
            forall|j: int|
                0 <= j < i ==> match #[trigger] out@[j] {
                    Some(d) => d.wf() && dispatch_in(v[j].value) == Some(d.view()),
                    None => dispatch_in(v[j].value) is None,
                },
        decreases assignments@.len() - i,
    {
        assert(v[i as int] == assignments@[i as int].view());
        out.push(extract_single_key_dispatch(&assignments[i].value));
        i += 1;
    }
    out
}

/// Collects the members of the family of `key`.
fn collect_members<'a>(
    assignments: &'a [Assignment],
    found: &'a Vec<Option<Dispatch<'a>>>,
    key: &str,
) -> (r: Vec<FamilyMember<'a>>)
    requires
        reads(found@, types::assignments_view(assignments@)),
    ensures
        members_view(r@) == members_of(types::assignments_view(assignments@), key@),
        forall|i: int| 0 <= i < r@.len() ==> (#[trigger] r@[i]).dispatch.wf(),
{
    let ghost v = types::assignments_view(assignments@);
    let mut last: StringHashMap<usize> = StringHashMap::new();
    let mut i: usize = 0;
    while i < assignments.len()
        invariant
            i <= assignments@.len(),
            v == types::assignments_view(assignments@),
            reads(found@, v),
            forall|j: int|
                0 <= j < i && dispatches_on(v, j, key@) ==> last@.contains_key(
                    (#[trigger] v[j]).property,
                ) && j <= last@[v[j].property],
            forall|x: Seq<char>| #[trigger]
                last@.contains_key(x) ==> last@[x] < i && v[last@[x] as int].property == x
                    && dispatches_on(v, last@[x] as int, key@),
        decreases assignments@.len() - i,
    {
        assert(v[i as int] == assignments@[i as int].view());
        if let Some(d) = &found[i] {
            if text_is(d.key, key) {
                last.insert(assignments[i].property.clone(), i);
            }
        }
        i += 1;
    }
    let mut out: Vec<FamilyMember<'a>> = Vec::new();
    let mut n: usize = 0;
    assert(members_view(out@) =~= members_among(v, key@, 0));
    while n < assignments.len()
        invariant
            n <= assignments@.len(),
            v == types::assignments_view(assignments@),
            reads(found@, v),
            forall|j: int|
                0 <= j < v.len() && dispatches_on(v, j, key@) ==> last@.contains_key(
                    (#[trigger] v[j]).property,
                ) && j <= last@[v[j].property],
            forall|x: Seq<char>| #[trigger]
                last@.contains_key(x) ==> last@[x] < v.len() && v[last@[x] as int].property == x
                    && dispatches_on(v, last@[x] as int, key@),
            members_view(out@) == members_among(v, key@, n as nat),
            forall|i: int| 0 <= i < out@.len() ==> (#[trigger] out@[i]).dispatch.wf(),
        decreases assignments@.len() - n,
    {
        let a: &'a Assignment = &assignments[n];
        assert(v[n as int] == a.view());
        let mut counts = false;
        if let Some(d) = &found[n] {
            if let Some(at) = last.get(a.property.as_str()) {
                if *at == n {
                    counts = true;
                    let ghost before = out@;
                    out.push(
                        FamilyMember { property: &a.property, assignment_index: n, dispatch: d },
                    );
                    assert(members_view(out@) =~= members_view(before).push(out@.last().view()));
                }
            }
        }
        proof {
            if counts {
                assert forall|j: int| n < j < v.len() && dispatches_on(v, j, key@) implies (
                #[trigger] v[j]).property != v[n as int].property by {}
                assert(counts_for(v, n as int, key@));
            } else if counts_for(v, n as int, key@) {
                let at = last@[v[n as int].property] as int;
                assert(n <= at);
                assert(v[at].property == v[n as int].property);
                assert(false);
            }
        }
        n += 1;
    }
    out
}

/// Tells whether a string holds `text`.
fn text_is(s: &String, text: &str) -> (r: bool)
    ensures
        r == (s@ == text@),
{
    crate::text::same(s.as_str(), text)
}

/// Adds up how many bodies members have.
fn count_bodies(members: &Vec<FamilyMember<'_>>) -> (r: u128)
    ensures
        r == body_count(members_view(members@)),
{
    let ghost all = members_view(members@);
    let mut total: u128 = 0;
    let mut i: usize = 0;
    assert(all.subrange(0, 0) =~= Seq::<MemberModel>::empty());
    while i < members.len()
        invariant
            i <= members@.len(),
            all == members_view(members@),
            total == body_count(all.subrange(0, i as int)),
            total <= i * 0xffff_ffff_ffff_ffff,
        decreases members@.len() - i,
    {
        let n: usize = members[i].dispatch.bodies.len();
        proof {
            let m = members@[i as int];
            assert(all.subrange(0, i + 1).drop_last() =~= all.subrange(0, i as int));
            assert(all.subrange(0, i + 1).last() == m.view());
            assert(m.view().bodies.dom() =~= m.dispatch.bodies@.dom());
        }
        total += n as u128;
        i += 1;
    }
    assert(all.subrange(0, i as int) =~= all);
    total
}

/// Finds the family that a list of assignments is about.
pub fn collect_dispatch_family<'a>(
    assignments: &'a [Assignment],
    found: &'a Vec<Option<Dispatch<'a>>>,
) -> (r: Option<DispatchFamily<'a>>)
    requires
        reads(found@, types::assignments_view(assignments@)),
    ensures
        match r {
            Some(f) => f.wf() && family_of(types::assignments_view(assignments@)) == Some(f.view()),
            None => family_of(types::assignments_view(assignments@)) is None,
        },
{
    let ghost v = types::assignments_view(assignments@);
    let mut best: Option<DispatchFamily<'a>> = None;
    let mut best_bodies: u128 = 0;
    let mut tried: StringHashSet = StringHashSet::new();
    let mut n: usize = 0;
    while n < found.len()
        invariant
            n <= found@.len(),
            v == types::assignments_view(assignments@),
            reads(found@, v),
            match best {
                Some(f) => f.wf() && best_key(v, n as nat) == Some(f.key_property@)
                    && members_view(f.members@) == members_of(v, f.key_property@) && best_bodies
                    == body_count(members_of(v, f.key_property@)) && forall|t: Seq<char>|
                    tried@.contains(t) ==> !(#[trigger] outranks(v, t, f.key_property@)),
                None => best_key(v, n as nat) is None && tried@ == Set::<Seq<char>>::empty(),
            },
        decreases found@.len() - n,
    {
        if let Some(d) = &found[n] {
            if !tried.contains(d.key.as_str()) {
                let members = collect_members(assignments, found, d.key.as_str());
                let bodies: u128 = count_bodies(&members);
                assert(members_view(members@).len() == members@.len());
                let better: bool = match &best {
                    Some(f) => {
                        assert(members_view(f.members@).len() == f.members@.len());
                        members.len() > f.members.len() || (members.len() == f.members.len()
                            && bodies > best_bodies)
                    },
                    None => true,
                };
                let ghost before = tried@;
                tried.insert(d.key.clone());
                if better {
                    proof {
                        if let Some(f) = best {
                            assert forall|t: Seq<char>| tried@.contains(t) implies !(
                            #[trigger] outranks(v, t, d.key@)) by {
                                if t != d.key@ {
                                    assert(before.contains(t));
                                    assert(!outranks(v, t, f.key_property@));
                                }
                            }
                        }
                    }
                    best = Some(DispatchFamily { key_property: d.key, members });
                    best_bodies = bodies;
                }
            }
        }
        n += 1;
    }
    match best {
        Some(f) => {
            assert(members_view(f.members@).len() == f.members@.len());
            if f.members.len() >= 2 {
                Some(f)
            } else {
                None
            }
        },
        None => None,
    }
}

// ---------------------------------------------------------------------------
// Numbers
// ---------------------------------------------------------------------------

/// Does some member have a body for `k`?
pub open spec fn has_body(members: Seq<MemberModel>, k: i64) -> bool {
    exists|i: int| 0 <= i < members.len() && (#[trigger] members[i]).bodies.contains_key(k)
}

/// Are the numbers in strictly increasing order?
pub open spec fn increasing(list: Seq<i64>) -> bool {
    forall|i: int, j: int| 0 <= i < j < list.len() ==> list[i] < list[j]
}

/// Inserts a number into an increasing list, once.
fn insert_number(list: &mut Vec<i64>, k: i64)
    requires
        increasing(old(list)@),
    ensures
        increasing(final(list)@),
        forall|x: i64| #[trigger]
            final(list)@.contains(x) <==> old(list)@.contains(x) || x == k,
{
    let mut at: usize = 0;
    while at < list.len() && list[at] < k
        invariant
            at <= list@.len(),
            list@ == old(list)@,
            increasing(list@),
            forall|j: int| 0 <= j < at ==> list@[j] < k,
        decreases list@.len() - at,
    {
        at += 1;
    }
    if at < list.len() && list[at] == k {
        assert(list@.contains(k));
        return;
    }
    list.insert(at, k);
    proof {
        let before = old(list)@;
        assert(list@ == before.insert(at as int, k));
        assert forall|i: int, j: int| 0 <= i < j < list@.len() implies list@[i] < list@[j] by {
            if i < at && j > at {
                assert(before[i] < before[j - 1]);
            }
            if i > at {
                assert(before[i - 1] < before[j - 1]);
            }
            if i == at {
                assert(before[at as int] <= before[j - 1]);
            }
        }
        assert forall|x: i64| #[trigger] list@.contains(x) <==> before.contains(x) || x == k by {
            assert(list@[at as int] == k);
            if before.contains(x) {
                let j = choose|j: int| 0 <= j < before.len() && before[j] == x;
                if j < at {
                    assert(list@[j] == x);
                } else {
                    assert(list@[j + 1] == x);
                }
            }
            if list@.contains(x) && x != k {
                let j = choose|j: int| 0 <= j < list@.len() && list@[j] == x;
                if j < at {
                    assert(before[j] == x);
                } else {
                    assert(before[j - 1] == x);
                }
            }
        }
    }
}

/// Lists the numbers that have a body, in increasing order.
pub fn list_numbers(family: &DispatchFamily<'_>) -> (r: Vec<i64>)
    requires
        family.wf(),
    ensures
        increasing(r@),
        forall|k: i64| #[trigger] r@.contains(k) <==> has_body(family.view().members, k),
{
    let ghost all = family.view().members;
    let mut out: Vec<i64> = Vec::new();
    let mut m: usize = 0;
    while m < family.members.len()
        invariant
            m <= family.members@.len(),
            family.wf(),
            all == members_view(family.members@),
            increasing(out@),
            forall|k: i64| #[trigger]
                out@.contains(k) <==> has_body(all.subrange(0, m as int), k),
        decreases family.members@.len() - m,
    {
        let keys: &Vec<i64> = &family.members[m].dispatch.keys;
        let ghost before = all.subrange(0, m as int);
        let mut i: usize = 0;
        while i < keys.len()
            invariant
                i <= keys@.len(),
                increasing(out@),
                forall|k: i64| #[trigger]
                    out@.contains(k) <==> has_body(before, k) || keys@.subrange(
                        0,
                        i as int,
                    ).contains(k),
            decreases keys@.len() - i,
        {
            insert_number(&mut out, keys[i]);
            i += 1;
            assert forall|k: i64| #[trigger] out@.contains(k) <==> has_body(before, k)
                || keys@.subrange(0, i as int).contains(k) by {
                let now = keys@.subrange(0, i as int);
                let then = keys@.subrange(0, i - 1);
                assert(now[i - 1] == keys@[i - 1]);
                if then.contains(k) {
                    let j = choose|j: int| 0 <= j < then.len() && then[j] == k;
                    assert(now[j] == k);
                }
                if now.contains(k) && k != keys@[i - 1] {
                    let j = choose|j: int| 0 <= j < now.len() && now[j] == k;
                    assert(then[j] == k);
                }
            }
        }
        assert(keys@.subrange(0, i as int) =~= keys@);
        proof {
            let now = all.subrange(0, m + 1);
            let member = family.members@[m as int];
            assert(now[m as int] == member.view());
            assert forall|k: i64| #[trigger] out@.contains(k) <==> has_body(now, k) by {
                assert(member.dispatch.bodies@.contains_key(k) <==> keys@.contains(k));
                if has_body(before, k) {
                    let j = choose|j: int|
                        0 <= j < before.len() && (#[trigger] before[j]).bodies.contains_key(k);
                    assert(now[j].bodies.contains_key(k));
                }
                if has_body(now, k) && !member.view().bodies.contains_key(k) {
                    let j = choose|j: int|
                        0 <= j < now.len() && (#[trigger] now[j]).bodies.contains_key(k);
                    assert(before[j].bodies.contains_key(k));
                }
            }
        }
        m += 1;
    }
    assert(all.subrange(0, m as int) =~= all);
    out
}

} // verus!

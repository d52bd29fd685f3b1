//! The dispatch inside an assignment: the chain that tests one key property.

use crate::pattern::loop_descriptor::walk;
use crate::types;
use crate::types::{BranchModel, Expr, ExprModel, StyleBranch, StyleTest, TestModel};
use vstd::hash_map::StringHashMap;
use vstd::prelude::*;

verus! {

// ---------------------------------------------------------------------------
// Dominant key
// ---------------------------------------------------------------------------

/// The properties that branches test against a literal, in branch order.
pub open spec fn tested_keys(branches: Seq<BranchModel>) -> Seq<Seq<char>>
    decreases branches.len(),
{
    if branches.len() == 0 {
        Seq::empty()
    } else {
        let before = tested_keys(branches.drop_last());
        match branches.last().literal_test() {
            Some((property, _)) => before.push(property),
            None => before,
        }
    }
}

/// How often `x` occurs in a list.
pub open spec fn times(list: Seq<Seq<char>>, x: Seq<char>) -> nat
    decreases list.len(),
{
    if list.len() == 0 {
        0
    } else {
        times(list.drop_last(), x) + (if list.last() == x {
            1nat
        } else {
            0nat
        })
    }
}

/// Position of the most frequent item among the first `n`; the first one of
/// several.
pub open spec fn top_position(list: Seq<Seq<char>>, n: nat) -> int
    decreases n,
{
    if n <= 1 {
        0
    } else {
        let best = top_position(list, (n - 1) as nat);
        if times(list, list[n - 1]) > times(list, list[best]) {
            n - 1
        } else {
            best
        }
    }
}

/// The property that at least half of the literal tests test.
pub open spec fn dominant_key(branches: Seq<BranchModel>) -> Option<Seq<char>> {
    let keys = tested_keys(branches);
    let top = keys[top_position(keys, keys.len())];
    if keys.len() > 0 && times(keys, top) * 2 >= keys.len() {
        Some(top)
    } else {
        None
    }
}

proof fn lemma_times(list: Seq<Seq<char>>, x: Seq<char>)
    ensures
        times(list, x) <= list.len(),
    decreases list.len(),
{
    if list.len() > 0 {
        lemma_times(list.drop_last(), x);
    }
}

proof fn lemma_top(list: Seq<Seq<char>>, n: nat)
    requires
        0 < n <= list.len(),
    ensures
        0 <= top_position(list, n) < n,
    decreases n,
{
    if n > 1 {
        lemma_top(list, (n - 1) as nat);
    }
}

/// Lists the properties that branches test against a literal.
fn list_tested<'a>(branches: &'a Vec<StyleBranch>) -> (r: Vec<&'a String>)
    ensures
        r@.len() == tested_keys(types::branches_view(branches@)).len(),
        r@.len() <= branches@.len(),
        forall|i: int|
            0 <= i < r@.len() ==> (#[trigger] r@[i])@ == tested_keys(
                types::branches_view(branches@),
            )[i],
{
    let ghost all = types::branches_view(branches@);
    let mut out: Vec<&'a String> = Vec::new();
    let mut i: usize = 0;
    assert(all.subrange(0, 0) =~= Seq::<BranchModel>::empty());
    while i < branches.len()
        invariant
            i <= branches@.len(),
            all == types::branches_view(branches@),
            out@.len() <= i,
            out@.len() == tested_keys(all.subrange(0, i as int)).len(),
            forall|j: int|
                0 <= j < out@.len() ==> (#[trigger] out@[j])@ == tested_keys(
                    all.subrange(0, i as int),
                )[j],
        decreases branches@.len() - i,
    {
        let b: &'a StyleBranch = &branches[i];
        assert(all[i as int] == b.view());
        assert(all.subrange(0, i + 1).drop_last() =~= all.subrange(0, i as int));
        assert(all.subrange(0, i + 1).last() == b.view());
        if let StyleTest::Single { property, value: Expr::Literal(_) } = &b.condition {
            out.push(property);
        }
        i += 1;
    }
    assert(all.subrange(0, i as int) =~= all);
    out
}

/// The values of a list of borrowed strings.
pub open spec fn refs_view(v: Seq<&String>) -> Seq<Seq<char>> {
    Seq::new(v.len(), |i: int| v[i]@)
}

/// Counts how often each item occurs in a list.
pub fn count_all(keys: &Vec<&String>) -> (r: StringHashMap<usize>)
    ensures
        forall|x: Seq<char>| #[trigger]
            r@.contains_key(x) ==> r@[x] == times(refs_view(keys@), x),
        forall|x: Seq<char>| !r@.contains_key(x) ==> #[trigger] times(refs_view(keys@), x) == 0,
{
    let ghost all = refs_view(keys@);
    let mut counts: StringHashMap<usize> = StringHashMap::new();
    let mut i: usize = 0;
    while i < keys.len()
        invariant
            i <= keys@.len(),
            all == refs_view(keys@),
            forall|x: Seq<char>| #[trigger]
                counts@.contains_key(x) ==> counts@[x] == times(all.subrange(0, i as int), x),
            forall|x: Seq<char>|
                !counts@.contains_key(x) ==> #[trigger] times(all.subrange(0, i as int), x) == 0,
        decreases keys@.len() - i,
    {
        let ghost now = all.subrange(0, i + 1);
        assert(now.drop_last() =~= all.subrange(0, i as int));
        assert(now.last() == keys@[i as int]@);
        let seen: usize = match counts.get(keys[i].as_str()) {
            Some(n) => *n,
            None => 0,
        };
        proof {
            lemma_times(all.subrange(0, i as int), keys@[i as int]@);
        }
        let ghost before = counts@;
        counts.insert(keys[i].clone(), seen + 1);
        i += 1;
        assert forall|x: Seq<char>| !counts@.contains_key(x) implies #[trigger] times(now, x)
            == 0 by {
            assert(!before.contains_key(x));
            assert(times(now.drop_last(), x) == 0);
        }
        assert forall|x: Seq<char>| #[trigger] counts@.contains_key(x) implies counts@[x] == times(
            now,
            x,
        ) by {
            if x != now.last() {
                assert(before.contains_key(x));
            }
        }
    }
    assert(all.subrange(0, i as int) =~= all);
    counts
}

/// Reads a count; what was not counted occurs zero times.
pub fn count_of(counts: &StringHashMap<usize>, x: &str) -> (r: usize)
    ensures
        r == (if counts@.contains_key(x@) {
            counts@[x@]
        } else {
            0
        }),
{
    match counts.get(x) {
        Some(n) => *n,
        None => 0,
    }
}

/// Finds the property that at least half of the literal tests test, with the
/// number of literal tests.
pub fn find_dominant<'a>(branches: &'a Vec<StyleBranch>) -> (r: (Option<&'a String>, usize))
    ensures
        match r.0 {
            Some(s) => dominant_key(types::branches_view(branches@)) == Some(s@),
            None => dominant_key(types::branches_view(branches@)) is None,
        },
        r.1 == tested_keys(types::branches_view(branches@)).len(),
{
    let keys = list_tested(branches);
    let ghost all = tested_keys(types::branches_view(branches@));
    if keys.len() == 0 {
        return (None, 0);
    }
    assert(refs_view(keys@) =~= all);
    let counts = count_all(&keys);
    let mut best: usize = 0;
    let mut best_count: usize = count_of(&counts, keys[0].as_str());
    let mut n: usize = 1;
    while n < keys.len()
        invariant
            1 <= n <= keys@.len(),
            keys@.len() == all.len(),
            forall|j: int| 0 <= j < keys@.len() ==> (#[trigger] keys@[j])@ == all[j],
            forall|x: Seq<char>| #[trigger]
                counts@.contains_key(x) ==> counts@[x] == times(all, x),
            forall|x: Seq<char>| !counts@.contains_key(x) ==> #[trigger] times(all, x) == 0,
            best == top_position(all, n as nat),
            best < n,
            best_count == times(all, all[best as int]),
        decreases keys@.len() - n,
    {
        let count: usize = count_of(&counts, keys[n].as_str());
        assert(count == times(all, all[n as int]));
        if count > best_count {
            best = n;
            best_count = count;
        }
        n += 1;
    }
    proof {
        lemma_times(all, all[best as int]);
        lemma_top(all, all.len());
    }
    let total: usize = keys.len();
    if best_count >= total - best_count {
        (Some(keys[best]), total)
    } else {
        (None, total)
    }
}

// ---------------------------------------------------------------------------
// Inner dispatch
// ---------------------------------------------------------------------------

/// Is an expression a chain that tests one property against literals throughout?
pub open spec fn single_key(e: ExprModel) -> bool {
    match e {
        ExprModel::Cond(branches, _) => branches.len() > 0 && branches[0].condition is Single
            && forall|i: int|
            0 <= i < branches.len() ==> (#[trigger] branches[i]).literal_test() is Some
                && branches[i].test_property() == branches[0].condition->Single_0,
        _ => false,
    }
}

/// Tells whether an expression tests one property against literals throughout.
pub fn is_single_key_dispatch(e: &Expr) -> (r: bool)
    ensures
        r == single_key(e.view()),
{
    match e {
        Expr::StyleCondition { branches, fallback } => {
            let ghost m = types::branches_view(branches@);
            assert(e.view() == ExprModel::Cond(m, Box::new(fallback.view())));
            if branches.len() == 0 {
                return false;
            }
            assert(m[0] == branches@[0].view());
            let key: &String = match &branches[0].condition {
                StyleTest::Single { property, .. } => property,
                _ => {
                    return false;
                },
            };
            let mut i: usize = 0;
            while i < branches.len()
                invariant
                    i <= branches@.len(),
                    branches@.len() > 0,
                    m == types::branches_view(branches@),
                    e.view() == ExprModel::Cond(m, Box::new(fallback.view())),
                    m[0].condition is Single && m[0].condition->Single_0 == key@,
                    forall|j: int|
                        0 <= j < i ==> (#[trigger] m[j]).literal_test() is Some
                            && m[j].test_property() == key@,
                decreases branches@.len() - i,
            {
                assert(m[i as int] == branches@[i as int].view());
                match &branches[i].condition {
                    StyleTest::Single { property, value: Expr::Literal(_) } => {
                        if *property != *key {
                            assert(m[i as int].test_property() != key@);
                            return false;
                        }
                    },
                    _ => {
                        assert(m[i as int].literal_test() is None);
                        return false;
                    },
                }
                i += 1;
            }
            true
        },
        _ => false,
    }
}

/// The dispatch inside an expression: the expression itself if it tests one
/// property throughout, else the first one among the operands of a math
/// function, else the one in the fallback of a conditional, else a conditional
/// whose literal tests (at least two) have a dominant key.
pub open spec fn inner_dispatch(e: ExprModel) -> Option<ExprModel>
    decreases e, walk::children(e).len() + 1,
{
    if single_key(e) {
        Some(e)
    } else {
        match e {
            ExprModel::Calc(_, _) => inner_dispatch_from(e, 0),
            ExprModel::Cond(branches, fallback) => if branches.len() > 0 {
                match inner_dispatch(*fallback) {
                    Some(d) => Some(d),
                    None => if tested_keys(branches).len() >= 2 && dominant_key(branches) is Some {
                        Some(e)
                    } else {
                        None
                    },
                }
            } else {
                None
            },
            _ => None,
        }
    }
}

/// The first dispatch among the parts of an expression from `i` on.
pub open spec fn inner_dispatch_from(e: ExprModel, i: nat) -> Option<ExprModel>
    decreases e, walk::children(e).len() - i,
{
    proof {
        walk::lemma_children(e);
    }
    if i < walk::children(e).len() {
        proof {
            assert(decreases_to!(e => walk::children(e)[i as int]));
        }
        match inner_dispatch(walk::children(e)[i as int]) {
            Some(d) => Some(d),
            None => inner_dispatch_from(e, i + 1),
        }
    } else {
        None
    }
}

/// Finds the dispatch inside an expression.
pub fn find_inner_dispatch(e: &Expr) -> (r: Option<&Expr>)
    ensures
        match r {
            Some(d) => inner_dispatch(e.view()) == Some(d.view()),
            None => inner_dispatch(e.view()) is None,
        },
    decreases e,
{
    if is_single_key_dispatch(e) {
        return Some(e);
    }
    match e {
        Expr::Calc(_) => {
            proof {
                types::lemma_calc(e);
            }
            let parts = walk::parts_of(e);
            let mut i: usize = 0;
            while i < parts.len()
                invariant
                    i <= parts@.len(),
                    !single_key(e.view()),
                    e.view() is Calc,
                    parts@.len() == walk::children(e.view()).len(),
                    forall|j: int|
                        0 <= j < parts@.len() ==> (#[trigger] parts@[j]).view() == walk::children(
                            e.view(),
                        )[j] && decreases_to!(*e => *parts@[j]),
                    inner_dispatch(e.view()) == inner_dispatch_from(e.view(), i as nat),
                decreases parts@.len() - i,
            {
                if let Some(d) = find_inner_dispatch(parts[i]) {
                    return Some(d);
                }
                i += 1;
            }
            None
        },
        Expr::StyleCondition { branches, fallback } => {
            let ghost m = types::branches_view(branches@);
            assert(e.view() == ExprModel::Cond(m, Box::new(fallback.view())));
            if branches.len() == 0 {
                return None;
            }
            match find_inner_dispatch(fallback) {
                Some(d) => Some(d),
                None => {
                    let (key, total): (Option<&String>, usize) = find_dominant(branches);
                    if total >= 2 && key.is_some() {
                        Some(e)
                    } else {
                        None
                    }
                },
            }
        },
        _ => None,
    }
}

// ---------------------------------------------------------------------------
// Overrides
// ---------------------------------------------------------------------------

/// The conditions that stand before the dispatch inside an expression: where
/// one of them holds, the dispatch does not decide the value.
pub open spec fn overrides(e: ExprModel) -> Seq<TestModel>
    decreases e, walk::children(e).len() + 1,
{
    if single_key(e) {
        Seq::empty()
    } else {
        match e {
            ExprModel::Calc(_, _) => overrides_from(e, 0),
            ExprModel::Cond(branches, fallback) => if branches.len() > 0 && inner_dispatch(
                *fallback,
            ) is Some {
                Seq::new(branches.len(), |i: int| branches[i].condition) + overrides(*fallback)
            } else {
                Seq::empty()
            },
            _ => Seq::empty(),
        }
    }
}

/// The overrides in the first part from `i` on that holds a dispatch.
pub open spec fn overrides_from(e: ExprModel, i: nat) -> Seq<TestModel>
    decreases e, walk::children(e).len() - i,
{
    proof {
        walk::lemma_children(e);
    }
    if i < walk::children(e).len() {
        proof {
            assert(decreases_to!(e => walk::children(e)[i as int]));
        }
        if inner_dispatch(walk::children(e)[i as int]) is Some {
            overrides(walk::children(e)[i as int])
        } else {
            overrides_from(e, i + 1)
        }
    } else {
        Seq::empty()
    }
}

/// Appends the overrides of an expression to `out`.
pub fn collect_override_branches(e: &Expr, out: &mut Vec<StyleTest>)
    ensures
        types::tests_view(final(out)@) == types::tests_view(old(out)@) + overrides(e.view()),
    decreases e,
{
    let ghost start = types::tests_view(out@);
    assert(start + Seq::<TestModel>::empty() =~= start);
    if is_single_key_dispatch(e) {
        return;
    }
    match e {
        Expr::Calc(_) => {
            proof {
                types::lemma_calc(e);
            }
            let parts = walk::parts_of(e);
            let mut i: usize = 0;
            while i < parts.len()
                invariant
                    i <= parts@.len(),
                    !single_key(e.view()),
                    e.view() is Calc,
                    start == types::tests_view(old(out)@),
                    start == types::tests_view(out@),
                    start + Seq::<TestModel>::empty() == start,
                    parts@.len() == walk::children(e.view()).len(),
                    forall|j: int|
                        0 <= j < parts@.len() ==> (#[trigger] parts@[j]).view() == walk::children(
                            e.view(),
                        )[j] && decreases_to!(*e => *parts@[j]),
                    overrides(e.view()) == overrides_from(e.view(), i as nat),
                decreases parts@.len() - i,
            {
                if find_inner_dispatch(parts[i]).is_some() {
                    collect_override_branches(parts[i], out);
                    return;
                }
                i += 1;
            }
        },
        Expr::StyleCondition { branches, fallback } => {
            let ghost m = types::branches_view(branches@);
            assert(e.view() == ExprModel::Cond(m, Box::new(fallback.view())));
            if branches.len() == 0 || find_inner_dispatch(fallback).is_none() {
                return;
            }
            let ghost tests = Seq::new(m.len(), |i: int| m[i].condition);
            let mut i: usize = 0;
            assert(start + tests.subrange(0, 0) =~= start);
            while i < branches.len()
                invariant
                    i <= branches@.len(),
                    m == types::branches_view(branches@),
                    tests == Seq::new(m.len(), |i: int| m[i].condition),
                    types::tests_view(out@) == start + tests.subrange(0, i as int),
                decreases branches@.len() - i,
            {
                let b: &StyleBranch = &branches[i];
                assert(m[i as int] == b.view());
                let test: StyleTest = b.condition.clone();
                let ghost before = out@;
                out.push(test);
                i += 1;
                proof {
                    assert(types::tests_view(out@) =~= types::tests_view(before).push(
                        test.view(),
                    ));
                    assert(types::tests_view(out@) =~= start + tests.subrange(0, i as int));
                }
            }
            assert(tests.subrange(0, i as int) =~= tests);
            collect_override_branches(fallback, out);
            assert(types::tests_view(out@) =~= start + overrides(e.view()));
        },
        _ => {},
    }
}

} // verus!

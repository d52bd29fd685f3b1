//! Dispatch tables: large `if(style(--param: N))` chains as keyed lookups.
//!
//! An `if()` whose branches all test the same property against integer literals
//! becomes a table from the literals to the branch bodies.

use crate::fx;
use crate::number;
use crate::tables;
use crate::types;
use crate::types::{BranchModel, Expr, ExprModel, StyleBranch, StyleTest, TestModel};
use rustc_hash::FxHashMap;
use vstd::prelude::*;

verus! {

/// Entries of a dispatch table. Tables can hold millions of integer keys, which
/// is what the cheap hasher is for.
pub type DispatchEntries = FxHashMap<i64, Expr>;

/// A dispatch table built from a large `if(style())` chain: look the value of
/// `key_property` up in `entries`, or use `fallback`.
#[derive(Debug, Clone)]
pub struct DispatchTable {
    /// The property being dispatched on (e.g. `--at`).
    pub key_property: String,
    /// Map from integer key value to result expression.
    pub entries: DispatchEntries,
    /// Result when the key has no entry.
    pub fallback: Expr,
}

/// The value of a [`DispatchTable`].
#[verifier::ext_equal]
pub struct TableModel {
    pub key: Seq<char>,
    pub entries: Map<i64, ExprModel>,
    pub fallback: ExprModel,
}

impl DispatchTable {
    /// The value of a table.
    pub open spec fn view(&self) -> TableModel {
        TableModel {
            key: self.key_property@,
            entries: self.entries@.map_values(|e: Expr| e.view()),
            fallback: self.fallback.view(),
        }
    }
}

impl BranchModel {
    /// Property and number of a plain test against a literal.
    pub open spec fn literal_test(self) -> Option<(Seq<char>, i64)> {
        match self.condition {
            TestModel::Single(property, value) => match *value {
                ExprModel::Number(bits) => Some((property, number::as_i64(bits))),
                _ => None,
            },
            _ => None,
        }
    }
}

impl BranchModel {
    /// Property of a plain test against a literal, where the branch has one.
    pub open spec fn test_property(self) -> Seq<char> {
        (self.literal_test()->0).0
    }

    /// Number of a plain test against a literal, where the branch has one.
    pub open spec fn test_key(self) -> i64 {
        (self.literal_test()->0).1
    }

    /// Is this a plain test against an integer literal?
    pub open spec fn tests_integer(self) -> bool {
        self.condition matches TestModel::Single(_, value) && (*value matches ExprModel::Number(
            bits,
        ) && number::is_whole(bits))
    }
}

/// Fewest branches that are worth a table.
pub const MIN_DISPATCH_BRANCHES: usize = 4;

/// The property that every branch tests against an integer literal, if there is
/// one and there are enough branches.
pub open spec fn dispatch_key(branches: Seq<BranchModel>) -> Option<Seq<char>> {
    if branches.len() >= MIN_DISPATCH_BRANCHES && branches[0].condition is Single && forall|i: int|
        0 <= i < branches.len() ==> (#[trigger] branches[i]).tests_integer()
            && branches[i].test_property() == branches[0].condition->Single_0 {
        Some(branches[0].condition->Single_0)
    } else {
        None
    }
}

/// The pairs of literal and body, in branch order.
pub open spec fn dispatch_pairs(branches: Seq<BranchModel>) -> Seq<(i64, ExprModel)> {
    Seq::new(branches.len(), |i: int| (branches[i].test_key(), branches[i].body))
}

/// The table that a chain of branches stands for: of two branches with the same
/// literal the first one is kept.
pub open spec fn dispatch_table(
    branches: Seq<BranchModel>,
    fallback: ExprModel,
) -> Option<TableModel> {
    match dispatch_key(branches) {
        Some(key) => Some(
            TableModel { key, entries: tables::first_of(dispatch_pairs(branches)), fallback },
        ),
        None => None,
    }
}

impl TableModel {
    /// What the table yields for a key.
    pub open spec fn lookup(self, key: i64) -> ExprModel {
        if self.entries.contains_key(key) {
            self.entries[key]
        } else {
            self.fallback
        }
    }
}

/// What the chain itself yields when the tested property equals `key`: the body
/// of the first branch whose literal matches.
pub open spec fn scan(branches: Seq<BranchModel>, fallback: ExprModel, key: i64) -> ExprModel
    decreases branches.len(),
{
    if branches.len() == 0 {
        fallback
    } else if branches[0].test_key() == key {
        branches[0].body
    } else {
        scan(branches.subrange(1, branches.len() as int), fallback, key)
    }
}

proof fn lemma_scan(branches: Seq<BranchModel>, fallback: ExprModel, key: i64)
    ensures
        forall|i: int|
            0 <= i < branches.len() && (#[trigger] branches[i]).test_key() == key && (
            forall|j: int|
                0 <= j < i ==> (#[trigger] branches[j]).test_key() != key) ==> scan(
                branches,
                fallback,
                key,
            ) == branches[i].body,
        (forall|i: int|
            0 <= i < branches.len() ==> (#[trigger] branches[i]).test_key() != key)
            ==> scan(branches, fallback, key) == fallback,
    decreases branches.len(),
{
    if branches.len() > 0 {
        let rest = branches.subrange(1, branches.len() as int);
        lemma_scan(rest, fallback, key);
        assert forall|i: int|
            0 <= i < branches.len() && (#[trigger] branches[i]).test_key() == key && (
            forall|j: int|
                0 <= j < i ==> (#[trigger] branches[j]).test_key() != key) implies scan(
            branches,
            fallback,
            key,
        ) == branches[i].body by {
            if i > 0 {
                assert(branches[0].test_key() != key);
                assert(rest[i - 1] == branches[i]);
                assert forall|j: int| 0 <= j < i - 1 implies (
                #[trigger] rest[j]).test_key() != key by {
                    assert(rest[j] == branches[j + 1]);
                }
            }
        }
        if forall|i: int|
            0 <= i < branches.len() ==> (#[trigger] branches[i]).test_key() != key {
            assert(branches[0].test_key() != key);
            assert forall|j: int| 0 <= j < rest.len() implies (
            #[trigger] rest[j]).test_key() != key by {
                assert(rest[j] == branches[j + 1]);
            }
        }
    }
}

/// A table answers every key as the chain that it was built from does.
pub proof fn law_table_agrees_with_scan(
    branches: Seq<BranchModel>,
    fallback: ExprModel,
    key: i64,
)
    requires
        dispatch_key(branches) is Some,
    ensures
        dispatch_table(branches, fallback)->0.lookup(key) == scan(branches, fallback, key),
{
    let pairs = dispatch_pairs(branches);
    tables::lemma_first_of(pairs);
    lemma_scan(branches, fallback, key);
    let t = dispatch_table(branches, fallback)->0;
    if t.entries.contains_key(key) {
        let n = choose|n: int| 0 <= n < pairs.len() && (#[trigger] pairs[n]).0 == key;
        let i = lemma_first_pair(pairs, key, n);
        assert forall|j: int| 0 <= j < i implies (#[trigger] branches[j]).test_key()
            != key by {
            assert(pairs[j].0 != key);
        }
        assert(branches[i].test_key() == key);
        tables::lemma_first_value(pairs, i);
    } else {
        assert forall|i: int| 0 <= i < branches.len() implies (
        #[trigger] branches[i]).test_key() != key by {
            assert(t.entries.contains_key(pairs[i].0));
        }
    }
}

/// Where some pair has the key, there is a first one.
proof fn lemma_first_pair(pairs: Seq<(i64, ExprModel)>, key: i64, n: int) -> (i: int)
    requires
        0 <= n < pairs.len(),
        pairs[n].0 == key,
    ensures
        0 <= i <= n,
        pairs[i].0 == key,
        forall|j: int| 0 <= j < i ==> (#[trigger] pairs[j]).0 != key,
    decreases n,
{
    if exists|j: int| 0 <= j < n && (#[trigger] pairs[j]).0 == key {
        let j = choose|j: int| 0 <= j < n && (#[trigger] pairs[j]).0 == key;
        lemma_first_pair(pairs, key, j)
    } else {
        n
    }
}

/// The shared key property of a chain that forms a dispatch table: at least
/// four plain tests of one property, all against integer literals.
pub fn recognise_dispatch_key(branches: &[StyleBranch]) -> (r: Option<&str>)
    ensures
        match r {
            Some(k) => dispatch_key(types::branches_view(branches@)) == Some(k@),
            None => dispatch_key(types::branches_view(branches@)) is None,
        },
{
    let ghost model = types::branches_view(branches@);
    if branches.len() < MIN_DISPATCH_BRANCHES {
        return None;
    }
    let key: &String = match &branches[0].condition {
        StyleTest::Single { property, value: _ } => property,
        _ => {
            assert(!(model[0].condition is Single));
            return None;
        },
    };
    assert(model[0].condition is Single && model[0].condition->Single_0 == key@);
    let mut i: usize = 0;
    while i < branches.len()
        invariant
            i <= branches@.len(),
            branches@.len() >= MIN_DISPATCH_BRANCHES,
            model == types::branches_view(branches@),
            model[0].condition is Single && model[0].condition->Single_0 == key@,
            forall|j: int|
                0 <= j < i ==> (#[trigger] model[j]).tests_integer()
                    && model[j].test_property() == key@,
        decreases branches@.len() - i,
    {
        assert(model[i as int] == branches@[i as int].view());
        match &branches[i].condition {
            StyleTest::Single { property, value: Expr::Literal(v) } => {
                if *property != *key || !v.is_whole_number() {
                    assert(model[i as int].test_property() != key@
                        || !model[i as int].tests_integer());
                    return None;
                }
            },
            _ => {
                assert(!model[i as int].tests_integer());
                return None;
            },
        }
        i += 1;
    }
    Some(key.as_str())
}

/// Recognises a chain as a dispatch table.
pub fn recognise_dispatch(branches: &[StyleBranch], fallback: &Expr) -> (r: Option<DispatchTable>)
    ensures
        match r {
            Some(t) => dispatch_table(types::branches_view(branches@), fallback.view()) == Some(
                t.view(),
            ),
            None => dispatch_table(types::branches_view(branches@), fallback.view()) is None,
        },
{
    let key_property: String = match recognise_dispatch_key(branches) {
        Some(k) => k.to_string(),
        None => {
            return None;
        },
    };
    let ghost model = types::branches_view(branches@);
    let ghost pairs = dispatch_pairs(model);
    let mut entries: DispatchEntries = FxHashMap::default();
    let mut i: usize = 0;
    assert(pairs.subrange(0, 0) =~= Seq::<(i64, ExprModel)>::empty());
    assert(entries@.map_values(|e: Expr| e.view()) =~= Map::<i64, ExprModel>::empty());
    while i < branches.len()
        invariant
            i <= branches@.len(),
            model == types::branches_view(branches@),
            pairs == dispatch_pairs(model),
            dispatch_key(model) is Some,
            entries@.map_values(|e: Expr| e.view()) == tables::first_of(pairs.subrange(0, i as int)),
        decreases branches@.len() - i,
    {
        assert(model[i as int] == branches@[i as int].view());
        assert(model[i as int].tests_integer());
        if let StyleTest::Single { property: _, value: Expr::Literal(v) } = &branches[i].condition {
            let key: i64 = v.to_i64();
            let ghost before = entries@;
            assert(pairs.subrange(0, i + 1).drop_last() =~= pairs.subrange(0, i as int));
            if fx::table_get(&entries, key).is_none() {
                let body: Expr = branches[i].body().clone();
                fx::table_insert(&mut entries, key, body);
                assert(entries@.map_values(|e: Expr| e.view()) =~= before.map_values(
                    |e: Expr| e.view(),
                ).insert(key, body.view()));
            }
        }
        i += 1;
    }
    assert(pairs.subrange(0, i as int) =~= pairs);
    Some(DispatchTable { key_property, entries, fallback: fallback.clone() })
}

} // verus!

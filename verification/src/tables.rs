//! Ordered tables and ordered listings of tables.

use crate::fx;
use crate::text;
use vstd::prelude::*;

verus! {

/// A map from strings to strings that keeps its entries in dictionary order of
/// the names.
#[derive(Debug)]
pub struct StringTable {
    items: Vec<(String, String)>,
}

/// The value of a list of string pairs.
pub open spec fn pairs_view(items: Seq<(String, String)>) -> Seq<(Seq<char>, Seq<char>)> {
    Seq::new(items.len(), |i: int| (items[i].0@, items[i].1@))
}

/// No two pairs share their first component.
pub open spec fn keys_distinct<K, V>(items: Seq<(K, V)>) -> bool {
    forall|i: int, j: int|
        0 <= i < j < items.len() ==> (#[trigger] items[i]).0 != (#[trigger] items[j]).0
}

/// The map that a list of pairs describes; a later pair wins over an earlier
/// one with the same key.
pub open spec fn map_of<K, V>(items: Seq<(K, V)>) -> Map<K, V>
    decreases items.len(),
{
    if items.len() == 0 {
        Map::empty()
    } else {
        map_of(items.drop_last()).insert(items.last().0, items.last().1)
    }
}

/// What `map_of` maps, key by key.
pub proof fn lemma_map_of<K, V>(items: Seq<(K, V)>)
    ensures
        forall|k: K| #[trigger]
            map_of(items).contains_key(k) ==> exists|i: int|
                0 <= i < items.len() && (#[trigger] items[i]).0 == k,
        forall|i: int|
            0 <= i < items.len() ==> map_of(items).contains_key((#[trigger] items[i]).0),
        keys_distinct(items) ==> forall|i: int|
            0 <= i < items.len() ==> map_of(items)[(#[trigger] items[i]).0] == items[i].1,
    decreases items.len(),
{
    if items.len() > 0 {
        let rest = items.drop_last();
        lemma_map_of(rest);
        assert forall|k: K| #[trigger] map_of(items).contains_key(k) implies exists|i: int|
            0 <= i < items.len() && (#[trigger] items[i]).0 == k by {
            if k == items.last().0 {
                assert(items[items.len() - 1].0 == k);
            } else {
                assert(map_of(rest).contains_key(k));
                let i = choose|i: int| 0 <= i < rest.len() && (#[trigger] rest[i]).0 == k;
                assert(items[i].0 == k);
            }
        }
        assert forall|i: int| 0 <= i < items.len() implies map_of(items).contains_key(
            (#[trigger] items[i]).0,
        ) by {
            if i < rest.len() {
                assert(rest[i] == items[i]);
            }
        }
        if keys_distinct(items) {
            assert forall|i: int, j: int| 0 <= i < j < rest.len() implies (#[trigger] rest[i]).0 != (
            #[trigger] rest[j]).0 by {
                assert(items[i].0 != items[j].0);
            }
            assert forall|i: int| 0 <= i < items.len() implies map_of(items)[(
            #[trigger] items[i]).0] == items[i].1 by {
                if i < rest.len() {
                    assert(rest[i] == items[i]);
                    assert(items[i].0 != items[items.len() - 1].0);
                }
            }
        }
    }
}

/// The map that a list of pairs describes when an earlier pair wins over a later
/// one with the same key.
pub open spec fn first_of<K, V>(items: Seq<(K, V)>) -> Map<K, V>
    decreases items.len(),
{
    if items.len() == 0 {
        Map::empty()
    } else {
        let before = first_of(items.drop_last());
        if before.contains_key(items.last().0) {
            before
        } else {
            before.insert(items.last().0, items.last().1)
        }
    }
}

/// What `first_of` maps, key by key.
pub proof fn lemma_first_of<K, V>(items: Seq<(K, V)>)
    ensures
        forall|k: K| #[trigger]
            first_of(items).contains_key(k) ==> exists|i: int|
                0 <= i < items.len() && (#[trigger] items[i]).0 == k,
        forall|i: int|
            0 <= i < items.len() ==> first_of(items).contains_key((#[trigger] items[i]).0),
    decreases items.len(),
{
    if items.len() > 0 {
        let rest = items.drop_last();
        let n = items.len() - 1;
        lemma_first_of(rest);
        assert forall|k: K| #[trigger] first_of(items).contains_key(k) implies exists|i: int|
            0 <= i < items.len() && (#[trigger] items[i]).0 == k by {
            if first_of(rest).contains_key(k) {
                let i = choose|i: int| 0 <= i < rest.len() && (#[trigger] rest[i]).0 == k;
                assert(items[i].0 == k);
            } else {
                assert(items[n].0 == k);
            }
        }
        assert forall|i: int| 0 <= i < items.len() implies first_of(items).contains_key(
            (#[trigger] items[i]).0,
        ) by {
            if i < rest.len() {
                assert(rest[i] == items[i]);
            }
        }
    }
}

/// The first pair with a key gives its value.
pub proof fn lemma_first_value<K, V>(items: Seq<(K, V)>, i: int)
    requires
        0 <= i < items.len(),
        forall|j: int| 0 <= j < i ==> (#[trigger] items[j]).0 != items[i].0,
    ensures
        first_of(items)[items[i].0] == items[i].1,
    decreases items.len(),
{
    let rest = items.drop_last();
    lemma_first_of(rest);
    if i < rest.len() {
        assert forall|j: int| 0 <= j < i implies (#[trigger] rest[j]).0 != rest[i].0 by {
            assert(items[j].0 != items[i].0);
        }
        lemma_first_value(rest, i);
        assert(first_of(rest).contains_key(rest[i].0));
    } else if first_of(rest).contains_key(items[i].0) {
        let j = choose|j: int| 0 <= j < rest.len() && (#[trigger] rest[j]).0 == items[i].0;
        assert(items[j].0 != items[i].0);
    }
}

/// A list with distinct keys lists its map.
pub proof fn lemma_map_of_lists<K, V>(items: Seq<(K, V)>)
    requires
        keys_distinct(items),
    ensures
        fx::lists(items, map_of(items)),
        map_of(items).dom().finite(),
        map_of(items).len() == items.len(),
    decreases items.len(),
{
    lemma_map_of(items);
    if items.len() > 0 {
        let rest = items.drop_last();
        assert forall|i: int, j: int| 0 <= i < j < rest.len() implies (#[trigger] rest[i]).0 != (
        #[trigger] rest[j]).0 by {
            assert(items[i].0 != items[j].0);
        }
        lemma_map_of_lists(rest);
        lemma_map_of(rest);
        assert(!map_of(rest).contains_key(items.last().0)) by {
            if map_of(rest).contains_key(items.last().0) {
                let i = choose|i: int|
                    0 <= i < rest.len() && (#[trigger] rest[i]).0 == items.last().0;
                assert(items[i].0 != items[items.len() - 1].0);
            }
        }
    }
}

/// Any listing of a map rebuilds that map.
pub proof fn lemma_listing_rebuilds<K, V>(items: Seq<(K, V)>, map: Map<K, V>)
    requires
        fx::lists(items, map),
    ensures
        map_of(items) == map,
{
    assert(keys_distinct(items));
    lemma_map_of(items);
    assert(map_of(items) =~= map) by {
        assert forall|k: K| map.contains_key(k) implies map_of(items).contains_key(k)
            && map_of(items)[k] == map[k] by {
            let i = choose|i: int| 0 <= i < items.len() && (#[trigger] items[i]).0 == k;
            assert(items[i].0 == k);
        }
    }
}

// ---------------------------------------------------------------------------
// Ordered listings
// ---------------------------------------------------------------------------

/// Are the names of a listing in dictionary order?
pub open spec fn texts_ordered(items: Seq<(Seq<char>, Seq<char>)>) -> bool {
    forall|i: int, j: int|
        0 <= i < j < items.len() ==> text::precedes(
            (#[trigger] items[i]).0,
            (#[trigger] items[j]).0,
        )
}

/// Are the addresses of a listing in increasing order?
pub open spec fn cells_ordered(items: Seq<(i32, i32)>) -> bool {
    forall|i: int, j: int|
        0 <= i < j < items.len() ==> (#[trigger] items[i]).0 < (#[trigger] items[j]).0
}

/// The listing of a table of strings in dictionary order of the names.
pub open spec fn sorted_texts(map: Map<Seq<char>, Seq<char>>) -> Seq<(Seq<char>, Seq<char>)> {
    choose|items: Seq<(Seq<char>, Seq<char>)>| fx::lists(items, map) && texts_ordered(items)
}

/// The listing of a table of words in increasing order of the addresses.
pub open spec fn sorted_cells(map: Map<i32, i32>) -> Seq<(i32, i32)> {
    choose|items: Seq<(i32, i32)>| fx::lists(items, map) && cells_ordered(items)
}

/// Names in dictionary order are distinct.
pub proof fn lemma_texts_distinct(items: Seq<(Seq<char>, Seq<char>)>)
    requires
        texts_ordered(items),
    ensures
        keys_distinct(items),
{
    assert forall|i: int, j: int| 0 <= i < j < items.len() implies (#[trigger] items[i]).0 != (
    #[trigger] items[j]).0 by {
        text::lemma_precedes_total(items[i].0, items[j].0);
    }
}

/// Two listings of one map whose keys are in the same strict order are equal.
proof fn lemma_ordered_listing<K, V>(
    a: Seq<(K, V)>,
    b: Seq<(K, V)>,
    map: Map<K, V>,
    less: spec_fn(K, K) -> bool,
    n: int,
)
    requires
        fx::lists(a, map),
        fx::lists(b, map),
        forall|i: int, j: int|
            0 <= i < j < a.len() ==> less((#[trigger] a[i]).0, (#[trigger] a[j]).0),
        forall|i: int, j: int|
            0 <= i < j < b.len() ==> less((#[trigger] b[i]).0, (#[trigger] b[j]).0),
        forall|x: K, y: K| !(#[trigger] less(x, y) && less(y, x)),
        0 <= n <= a.len(),
    ensures
        n <= b.len(),
        forall|i: int| 0 <= i < n ==> a[i] == b[i],
    decreases n,
{
    if n > 0 {
        let i = n - 1;
        lemma_ordered_listing(a, b, map, less, i);
        assert(map.contains_key(a[i].0));
        let m = choose|m: int| 0 <= m < b.len() && (#[trigger] b[m]).0 == a[i].0;
        assert(m >= i) by {
            if m < i {
                assert(a[m] == b[m]);
                assert(a[m].0 != a[i].0);
            }
        }
        if m > i {
            assert(map.contains_key(b[i].0));
            let k = choose|k: int| 0 <= k < a.len() && (#[trigger] a[k]).0 == b[i].0;
            assert(less(b[i].0, b[m].0));
            if k < i {
                assert(a[k] == b[k]);
                assert(b[k].0 != b[i].0);
            } else if k > i {
                assert(less(a[i].0, a[k].0));
            } else {
                assert(b[i].0 != b[m].0);
            }
            assert(false);
        }
    }
}

/// A listing in dictionary order is the listing in dictionary order.
pub proof fn lemma_sorted_texts(
    items: Seq<(Seq<char>, Seq<char>)>,
    map: Map<Seq<char>, Seq<char>>,
)
    requires
        fx::lists(items, map),
        texts_ordered(items),
    ensures
        items == sorted_texts(map),
{
    let other = sorted_texts(map);
    let less = |x: Seq<char>, y: Seq<char>| text::precedes(x, y);
    assert forall|x: Seq<char>, y: Seq<char>| !(#[trigger] less(x, y) && less(y, x)) by {
        text::lemma_precedes_total(x, y);
    }
    assert forall|i: int, j: int| 0 <= i < j < items.len() implies less(
        (#[trigger] items[i]).0,
        (#[trigger] items[j]).0,
    ) by {}
    assert forall|i: int, j: int| 0 <= i < j < other.len() implies less(
        (#[trigger] other[i]).0,
        (#[trigger] other[j]).0,
    ) by {}
    lemma_ordered_listing(items, other, map, less, items.len() as int);
    lemma_ordered_listing(other, items, map, less, other.len() as int);
    assert(items =~= other);
}

/// A listing in increasing order is the listing in increasing order.
pub proof fn lemma_sorted_cells(items: Seq<(i32, i32)>, map: Map<i32, i32>)
    requires
        fx::lists(items, map),
        cells_ordered(items),
    ensures
        items == sorted_cells(map),
{
    let other = sorted_cells(map);
    let less = |x: i32, y: i32| x < y;
    assert forall|i: int, j: int| 0 <= i < j < items.len() implies less(
        (#[trigger] items[i]).0,
        (#[trigger] items[j]).0,
    ) by {}
    assert forall|i: int, j: int| 0 <= i < j < other.len() implies less(
        (#[trigger] other[i]).0,
        (#[trigger] other[j]).0,
    ) by {}
    lemma_ordered_listing(items, other, map, less, items.len() as int);
    lemma_ordered_listing(other, items, map, less, other.len() as int);
    assert(items =~= other);
}

/// Is every item of `all` in one of the two parts, and nothing else?
pub open spec fn shares(all: Seq<(i32, i32)>, a: Seq<(i32, i32)>, b: Seq<(i32, i32)>) -> bool {
    forall|x: (i32, i32)| #[trigger] all.contains(x) <==> a.contains(x) || b.contains(x)
}

/// Merges two listings in increasing order that have no address in common.
fn merge_cells(a: &Vec<(i32, i32)>, b: &Vec<(i32, i32)>) -> (r: Vec<(i32, i32)>)
    requires
        cells_ordered(a@),
        cells_ordered(b@),
        forall|i: int, j: int|
            0 <= i < a@.len() && 0 <= j < b@.len() ==> (#[trigger] a@[i]).0 != (
            #[trigger] b@[j]).0,
    ensures
        cells_ordered(r@),
        shares(r@, a@, b@),
{
    let mut out: Vec<(i32, i32)> = Vec::new();
    let mut i: usize = 0;
    let mut j: usize = 0;
    while i < a.len() || j < b.len()
        invariant
            i <= a@.len(),
            j <= b@.len(),
            cells_ordered(a@),
            cells_ordered(b@),
            forall|i: int, j: int|
                0 <= i < a@.len() && 0 <= j < b@.len() ==> (#[trigger] a@[i]).0 != (
                #[trigger] b@[j]).0,
            cells_ordered(out@),
            forall|x: int, y: int|
                0 <= x < out@.len() && i <= y < a@.len() ==> (#[trigger] out@[x]).0 < (
                #[trigger] a@[y]).0,
            forall|x: int, y: int|
                0 <= x < out@.len() && j <= y < b@.len() ==> (#[trigger] out@[x]).0 < (
                #[trigger] b@[y]).0,
            shares(out@, a@.subrange(0, i as int), b@.subrange(0, j as int)),
        decreases a@.len() - i + b@.len() - j,
    {
        let ghost before = out@;
        let ghost x = a@.subrange(0, i as int);
        let ghost y = b@.subrange(0, j as int);
        if j >= b.len() || (i < a.len() && a[i].0 < b[j].0) {
            out.push(a[i]);
            i += 1;
            proof {
                assert(a@.subrange(0, i - 1) == x);
                lemma_taken(before, a@, y, i as int);
                assert(out@ == before.push(a@[i - 1]));
                assert(shares(out@, a@.subrange(0, i as int), y));
            }
        } else {
            out.push(b[j]);
            j += 1;
            proof {
                assert(b@.subrange(0, j - 1) == y);
                assert forall|e: (i32, i32)| #[trigger]
                    before.contains(e) <==> b@.subrange(0, j - 1).contains(e) || x.contains(e) by {}
                lemma_taken(before, b@, x, j as int);
                assert(out@ == before.push(b@[j - 1]));
                assert(shares(out@, x, b@.subrange(0, j as int)));
            }
        }
    }
    assert(a@.subrange(0, i as int) =~= a@);
    assert(b@.subrange(0, j as int) =~= b@);
    out
}

/// Taking one more item from one part keeps the parts shared.
proof fn lemma_taken(before: Seq<(i32, i32)>, a: Seq<(i32, i32)>, other: Seq<(i32, i32)>, n: int)
    requires
        0 < n <= a.len(),
        forall|x: (i32, i32)| #[trigger]
            before.contains(x) <==> a.subrange(0, n - 1).contains(x) || other.contains(x),
    ensures
        forall|x: (i32, i32)| #[trigger]
            before.push(a[n - 1]).contains(x) <==> a.subrange(0, n).contains(x) || other.contains(
                x,
            ),
{
    let now = before.push(a[n - 1]);
    let head = a.subrange(0, n);
    let shorter = a.subrange(0, n - 1);
    assert forall|x: (i32, i32)| #[trigger] now.contains(x) <==> head.contains(x)
        || other.contains(x) by {
        assert(now[before.len() as int] == a[n - 1]);
        assert(head[n - 1] == a[n - 1]);
        if before.contains(x) {
            let k = choose|k: int| 0 <= k < before.len() && before[k] == x;
            assert(now[k] == x);
        }
        if now.contains(x) && x != a[n - 1] {
            let k = choose|k: int| 0 <= k < now.len() && now[k] == x;
            assert(before[k] == x);
        }
        if shorter.contains(x) {
            let k = choose|k: int| 0 <= k < shorter.len() && shorter[k] == x;
            assert(head[k] == x);
        }
        if head.contains(x) && x != a[n - 1] {
            let k = choose|k: int| 0 <= k < head.len() && head[k] == x;
            assert(shorter[k] == x);
        }
    }
}

/// Sorts the part `from .. to` of a listing.
fn sort_part(cells: &Vec<(i32, i32)>, from: usize, to: usize) -> (r: Vec<(i32, i32)>)
    requires
        from <= to <= cells@.len(),
        keys_distinct(cells@),
    ensures
        cells_ordered(r@),
        forall|x: (i32, i32)| #[trigger]
            r@.contains(x) <==> cells@.subrange(from as int, to as int).contains(x),
    decreases to - from,
{
    let ghost part = cells@.subrange(from as int, to as int);
    let mut out: Vec<(i32, i32)> = Vec::new();
    if from == to {
        assert(out@ =~= part);
        return out;
    }
    if to - from == 1 {
        out.push(cells[from]);
        assert(out@ =~= part);
        return out;
    }
    let mid: usize = from + (to - from) / 2;
    let a = sort_part(cells, from, mid);
    let b = sort_part(cells, mid, to);
    let ghost left = cells@.subrange(from as int, mid as int);
    let ghost right = cells@.subrange(mid as int, to as int);
    assert forall|i: int, j: int| 0 <= i < a@.len() && 0 <= j < b@.len() implies (
    #[trigger] a@[i]).0 != (#[trigger] b@[j]).0 by {
        assert(a@.contains(a@[i]));
        assert(b@.contains(b@[j]));
        let x = choose|x: int| 0 <= x < left.len() && left[x] == a@[i];
        let y = choose|y: int| 0 <= y < right.len() && right[y] == b@[j];
        assert(cells@[from + x].0 != cells@[mid + y].0);
    }
    out = merge_cells(&a, &b);
    assert forall|x: (i32, i32)| #[trigger] out@.contains(x) <==> part.contains(x) by {
        if left.contains(x) {
            let k = choose|k: int| 0 <= k < left.len() && left[k] == x;
            assert(part[k] == x);
        }
        if right.contains(x) {
            let k = choose|k: int| 0 <= k < right.len() && right[k] == x;
            assert(part[mid - from + k] == x);
        }
        if part.contains(x) {
            let k = choose|k: int| 0 <= k < part.len() && part[k] == x;
            if k < mid - from {
                assert(left[k] == x);
            } else {
                assert(right[k - (mid - from)] == x);
            }
        }
    }
    out
}

/// Brings the listing of a table of words into increasing order.
pub(crate) fn sort_cells(cells: &Vec<(i32, i32)>, Ghost(map): Ghost<Map<i32, i32>>) -> (r: Vec<(i32, i32)>)
    requires
        fx::lists(cells@, map),
    ensures
        r@ == sorted_cells(map),
        fx::lists(r@, map),
{
    let r = sort_part(cells, 0, cells.len());
    proof {
        assert(cells@.subrange(0, cells@.len() as int) =~= cells@);
        assert forall|i: int| 0 <= i < r@.len() implies map.contains_key((#[trigger] r@[i]).0)
            && map[r@[i].0] == r@[i].1 by {
            assert(r@.contains(r@[i]));
            let k = choose|k: int| 0 <= k < cells@.len() && cells@[k] == r@[i];
            assert(cells@[k] == r@[i]);
        }
        assert forall|k: i32| #[trigger] map.contains_key(k) implies exists|i: int|
            0 <= i < r@.len() && (#[trigger] r@[i]).0 == k by {
            let c = choose|c: int| 0 <= c < cells@.len() && (#[trigger] cells@[c]).0 == k;
            assert(cells@.contains(cells@[c]));
            assert(r@.contains(cells@[c]));
            let i = choose|i: int| 0 <= i < r@.len() && r@[i] == cells@[c];
            assert(r@[i].0 == k);
        }
        lemma_sorted_cells(r@, map);
    }
    r
}

impl StringTable {
    /// The entries in order.
    pub closed spec fn entries(&self) -> Seq<(Seq<char>, Seq<char>)> {
        pairs_view(self.items@)
    }

    /// The names are in dictionary order, so none occurs twice.
    pub closed spec fn wf(&self) -> bool {
        texts_ordered(pairs_view(self.items@))
    }

    /// The map from names to values.
    pub closed spec fn view(&self) -> Map<Seq<char>, Seq<char>> {
        map_of(pairs_view(self.items@))
    }

    /// The empty table.
    pub fn new() -> (r: StringTable)
        ensures
            r.wf(),
            r@ == Map::<Seq<char>, Seq<char>>::empty(),
    {
        StringTable { items: Vec::new() }
    }

    /// Number of entries.
    pub fn len(&self) -> (r: usize)
        requires
            self.wf(),
        ensures
            r == self@.len(),
            r == self.entries().len(),
            self.entries() == sorted_texts(self@),
            fx::lists(self.entries(), self@),
    {
        proof {
            let items = pairs_view(self.items@);
            lemma_texts_distinct(items);
            lemma_map_of_lists(items);
            lemma_sorted_texts(items, map_of(items));
        }
        self.items.len()
    }

    /// The `i`-th entry in order.
    pub fn entry(&self, i: usize) -> (r: (&String, &String))
        requires
            i < self.entries().len(),
        ensures
            (r.0@, r.1@) == self.entries()[i as int],
    {
        (&self.items[i].0, &self.items[i].1)
    }

    fn find(&self, name: &str) -> (r: Option<usize>)
        requires
            self.wf(),
        ensures
            match r {
                Some(i) => i < self.items@.len() && self.items@[i as int].0@ == name@,
                None => forall|j: int|
                    0 <= j < self.items@.len() ==> (#[trigger] self.items@[j]).0@ != name@,
            },
    {
        let wanted: String = name.to_string();
        let mut i: usize = 0;
        while i < self.items.len()
            invariant
                i <= self.items@.len(),
                wanted@ == name@,
                forall|j: int| 0 <= j < i ==> (#[trigger] self.items@[j]).0@ != name@,
            decreases self.items@.len() - i,
        {
            if self.items[i].0 == wanted {
                return Some(i);
            }
            i += 1;
        }
        None
    }

    /// The value stored under `name`.
    pub fn get(&self, name: &str) -> (r: Option<&String>)
        requires
            self.wf(),
        ensures
            match r {
                Some(v) => self@.contains_key(name@) && self@[name@] == v@,
                None => !self@.contains_key(name@),
            },
    {
        let ghost p = pairs_view(self.items@);
        proof {
            lemma_texts_distinct(p);
            lemma_map_of(p);
        }
        match self.find(name) {
            Some(i) => {
                assert(p[i as int].0 == name@);
                Some(&self.items[i].1)
            },
            None => {
                assert(!self@.contains_key(name@)) by {
                    if self@.contains_key(name@) {
                        let j = choose|j: int| 0 <= j < p.len() && (#[trigger] p[j]).0 == name@;
                        assert(self.items@[j].0@ == name@);
                    }
                }
                None
            },
        }
    }

    /// Stores `value` under `name`.
    pub fn insert(&mut self, name: String, value: String)
        requires
            old(self).wf(),
        ensures
            final(self).wf(),
            final(self)@ == old(self)@.insert(name@, value@),
    {
        let ghost before = pairs_view(self.items@);
        let ghost k = name@;
        let ghost v = value@;
        proof {
            lemma_texts_distinct(before);
            lemma_map_of(before);
        }
        match self.find(name.as_str()) {
            Some(i) => {
                self.items.set(i, (name, value));
                proof {
                    let after = pairs_view(self.items@);
                    assert(after =~= before.update(i as int, (k, v)));
                    assert(before[i as int].0 == k);
                    assert forall|a: int, b: int| 0 <= a < b < after.len() implies text::precedes(
                        (#[trigger] after[a]).0,
                        (#[trigger] after[b]).0,
                    ) by {
                        assert(text::precedes(before[a].0, before[b].0));
                    }
                    lemma_texts_distinct(after);
                    let target = map_of(before).insert(k, v);
                    assert forall|j: int| 0 <= j < after.len() implies target.contains_key(
                        (#[trigger] after[j]).0,
                    ) && target[after[j].0] == after[j].1 by {
                        assert(after[j].0 == before[j].0);
                        if j != i {
                            assert(before[j].0 != before[i as int].0);
                        }
                    }
                    assert forall|n: Seq<char>| #[trigger] target.contains_key(n) implies exists|
                        j: int,
                    |
                        0 <= j < after.len() && (#[trigger] after[j]).0 == n by {
                        if n == k {
                            assert(after[i as int].0 == n);
                        } else {
                            let j = choose|j: int|
                                0 <= j < before.len() && (#[trigger] before[j]).0 == n;
                            assert(after[j].0 == n);
                        }
                    }
                    lemma_listing_rebuilds(after, target);
                }
            },
            None => {
                let mut at: usize = 0;
                while at < self.items.len() && text::comes_before(
                    self.items[at].0.as_str(),
                    name.as_str(),
                )
                    invariant
                        at <= self.items@.len(),
                        before == pairs_view(self.items@),
                        k == name@,
                        forall|j: int| 0 <= j < at ==> text::precedes((#[trigger] before[j]).0, k),
                    decreases self.items@.len() - at,
                {
                    assert(before[at as int].0 == self.items@[at as int].0@);
                    at += 1;
                }
                proof {
                    if at < before.len() {
                        assert(before[at as int].0 == self.items@[at as int].0@);
                        text::lemma_precedes_total(before[at as int].0, k);
                        assert(self.items@[at as int].0@ != k);
                    }
                }
                let ghost listed = self.items@;
                self.items.insert(at, (name, value));
                proof {
                    let after = pairs_view(self.items@);
                    assert(after =~= before.insert(at as int, (k, v)));
                    assert forall|a: int, b: int| 0 <= a < b < after.len() implies text::precedes(
                        (#[trigger] after[a]).0,
                        (#[trigger] after[b]).0,
                    ) by {
                        if a < at && b > at {
                            assert(text::precedes(before[a].0, before[b - 1].0));
                        } else if a > at {
                            assert(text::precedes(before[a - 1].0, before[b - 1].0));
                        } else if a == at {
                            if b - 1 > at {
                                assert(text::precedes(before[at as int].0, before[b - 1].0));
                                text::lemma_precedes_transitive(
                                    k,
                                    before[at as int].0,
                                    before[b - 1].0,
                                );
                            }
                        } else if b < at {
                            assert(text::precedes(before[a].0, before[b].0));
                        } else {
                            assert(text::precedes(before[a].0, k));
                        }
                    }
                    lemma_texts_distinct(after);
                    let target = map_of(before).insert(k, v);
                    assert forall|j: int| 0 <= j < after.len() implies target.contains_key(
                        (#[trigger] after[j]).0,
                    ) && target[after[j].0] == after[j].1 by {
                        if j < at {
                            assert(after[j] == before[j]);
                            assert(listed[j].0@ != k);
                        } else if j > at {
                            assert(after[j] == before[j - 1]);
                            assert(listed[j - 1].0@ != k);
                        }
                    }
                    assert forall|n: Seq<char>| #[trigger] target.contains_key(n) implies exists|
                        j: int,
                    |
                        0 <= j < after.len() && (#[trigger] after[j]).0 == n by {
                        if n == k {
                            assert(after[at as int].0 == n);
                        } else {
                            let j = choose|j: int|
                                0 <= j < before.len() && (#[trigger] before[j]).0 == n;
                            if j < at {
                                assert(after[j].0 == n);
                            } else {
                                assert(after[j + 1].0 == n);
                            }
                        }
                    }
                    lemma_listing_rebuilds(after, target);
                }
            },
        }
    }

    /// Forgets `name`.
    pub fn remove(&mut self, name: &str)
        requires
            old(self).wf(),
        ensures
            final(self).wf(),
            final(self)@ == old(self)@.remove(name@),
    {
        let ghost before = pairs_view(self.items@);
        let ghost k = name@;
        proof {
            lemma_texts_distinct(before);
            lemma_map_of(before);
        }
        match self.find(name) {
            Some(i) => {
                self.items.remove(i);
                proof {
                    let after = pairs_view(self.items@);
                    assert(after =~= before.remove(i as int));
                    assert(before[i as int].0 == k);
                    assert forall|a: int, b: int| 0 <= a < b < after.len() implies text::precedes(
                        (#[trigger] after[a]).0,
                        (#[trigger] after[b]).0,
                    ) by {
                        let x = if a < i {
                            a
                        } else {
                            a + 1
                        };
                        let y = if b < i {
                            b
                        } else {
                            b + 1
                        };
                        assert(text::precedes(before[x].0, before[y].0));
                    }
                    lemma_texts_distinct(after);
                    lemma_map_of(after);
                    assert(map_of(after) =~= map_of(before).remove(k)) by {
                        assert forall|n: Seq<char>| map_of(before).remove(k).contains_key(n)
                            implies map_of(after).contains_key(n) && map_of(after)[n] == map_of(
                            before,
                        )[n] by {
                            let j = choose|j: int|
                                0 <= j < before.len() && (#[trigger] before[j]).0 == n;
                            let y = if j < i {
                                j
                            } else {
                                j - 1
                            };
                            assert(after[y] == before[j]);
                        }
                        assert forall|n: Seq<char>| map_of(after).contains_key(n) implies map_of(
                            before,
                        ).remove(k).contains_key(n) by {
                            let j = choose|j: int|
                                0 <= j < after.len() && (#[trigger] after[j]).0 == n;
                            let y = if j < i {
                                j
                            } else {
                                j + 1
                            };
                            assert(before[y] == after[j]);
                            if j < i {
                                assert(before[y].0 != before[i as int].0);
                            } else {
                                assert(before[i as int].0 != before[y].0);
                            }
                        }
                    }
                }
            },
            None => {
                proof {
                    assert(!map_of(before).contains_key(k)) by {
                        if map_of(before).contains_key(k) {
                            let j = choose|j: int|
                                0 <= j < before.len() && (#[trigger] before[j]).0 == k;
                            assert(self.items@[j].0@ == k);
                        }
                    }
                    assert(map_of(before).remove(k) =~= map_of(before));
                }
            },
        }
    }

    /// Forgets every name.
    pub fn clear(&mut self)
        ensures
            final(self).wf(),
            final(self)@ == Map::<Seq<char>, Seq<char>>::empty(),
    {
        self.items.clear();
    }
}

/// Copies a list of string pairs.
pub(crate) fn clone_pairs(items: &Vec<(String, String)>) -> (r: Vec<(String, String)>)
    ensures
        pairs_view(r@) == pairs_view(items@),
{
    let mut out: Vec<(String, String)> = Vec::new();
    let mut i: usize = 0;
    while i < items.len()
        invariant
            i <= items@.len(),
            out@.len() == i,
            forall|j: int|
                0 <= j < i ==> (#[trigger] out@[j]).0@ == items@[j].0@ && out@[j].1@
                    == items@[j].1@,
        decreases items@.len() - i,
    {
        out.push((items[i].0.clone(), items[i].1.clone()));
        i += 1;
    }
    assert(pairs_view(out@) =~= pairs_view(items@));
    out
}

impl Clone for StringTable {
    fn clone(&self) -> (r: Self)
        ensures
            r@ == self@,
            r.entries() == self.entries(),
            r.wf() == self.wf(),
    {
        StringTable { items: clone_pairs(&self.items) }
    }
}

} // verus!

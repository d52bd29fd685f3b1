//! What deltas, declarations and snapshots hold and leave in a state.

use crate::delta;
use crate::delta::{Change, DeltaModel};
use crate::load;
use crate::names;
use crate::snapshot;
use crate::state;
use crate::state::{StateModel, EXTENDED_BASE};
use crate::text;
use crate::types::PropertyDef;
use vstd::prelude::*;

verus! {

// ---------------------------------------------------------------------------
// Deltas
// ---------------------------------------------------------------------------

/// Does some change name the key?
pub open spec fn names_key<K, V>(changes: Seq<Change<K, V>>, key: K) -> bool {
    exists|i: int| 0 <= i < changes.len() && (#[trigger] changes[i]).key == key
}

proof fn lemma_moved_seq<V>(s: Seq<V>, changes: Seq<Change<int, V>>, forward: bool)
    requires
        forall|i: int| 0 <= i < changes.len() ==> 0 <= (#[trigger] changes[i]).key < s.len(),
        delta::once(changes),
    ensures
        delta::moved_seq(s, changes, forward).len() == s.len(),
        forall|i: int|
            0 <= i < changes.len() ==> delta::moved_seq(
                s,
                changes,
                forward,
            )[(#[trigger] changes[i]).key] == if forward {
                changes[i].after
            } else {
                changes[i].before
            },
        forall|k: int|
            0 <= k < s.len() && !names_key(changes, k) ==> #[trigger] delta::moved_seq(
                s,
                changes,
                forward,
            )[k] == s[k],
    decreases changes.len(),
{
    if changes.len() > 0 {
        let rest = changes.drop_last();
        let n = rest.len() as int;
        assert(changes[n] == changes.last());
        assert forall|i: int| 0 <= i < rest.len() implies 0 <= (#[trigger] rest[i]).key
            < s.len() by {
            assert(rest[i] == changes[i]);
        }
        assert forall|i: int, j: int| 0 <= i < j < rest.len() implies (#[trigger] rest[i]).key != (
        #[trigger] rest[j]).key by {
            assert(changes[i].key != changes[j].key);
        }
        lemma_moved_seq(s, rest, forward);
        let before = delta::moved_seq(s, rest, forward);
        let after = delta::moved_seq(s, changes, forward);
        assert forall|i: int| 0 <= i < changes.len() implies after[(#[trigger] changes[i]).key]
            == if forward {
            changes[i].after
        } else {
            changes[i].before
        } by {
            if i < n {
                assert(changes[i].key != changes[n].key);
                assert(rest[i] == changes[i]);
            }
        }
        assert forall|k: int| 0 <= k < s.len() && !names_key(changes, k) implies #[trigger] after[k]
            == s[k] by {
            assert(changes[n].key != k);
            if names_key(rest, k) {
                let i = choose|i: int| 0 <= i < rest.len() && (#[trigger] rest[i]).key == k;
                assert(changes[i].key == k);
            }
            assert(before[k] == s[k]);
        }
    }
}

proof fn lemma_moved_map<K, V>(m: Map<K, V>, changes: Seq<Change<K, Option<V>>>, forward: bool)
    requires
        delta::once(changes),
    ensures
        forall|i: int|
            0 <= i < changes.len() ==> delta::stored(
                delta::moved_map(m, changes, forward),
                (#[trigger] changes[i]).key,
            ) == if forward {
                changes[i].after
            } else {
                changes[i].before
            },
        forall|k: K|
            !names_key(changes, k) ==> #[trigger] delta::stored(
                delta::moved_map(m, changes, forward),
                k,
            ) == delta::stored(m, k),
    decreases changes.len(),
{
    if changes.len() > 0 {
        let rest = changes.drop_last();
        let n = rest.len() as int;
        assert(changes[n] == changes.last());
        assert forall|i: int, j: int| 0 <= i < j < rest.len() implies (#[trigger] rest[i]).key != (
        #[trigger] rest[j]).key by {
            assert(changes[i].key != changes[j].key);
        }
        lemma_moved_map(m, rest, forward);
        let before = delta::moved_map(m, rest, forward);
        let after = delta::moved_map(m, changes, forward);
        assert forall|i: int| 0 <= i < changes.len() implies delta::stored(
            after,
            (#[trigger] changes[i]).key,
        ) == if forward {
            changes[i].after
        } else {
            changes[i].before
        } by {
            if i < n {
                assert(changes[i].key != changes[n].key);
                assert(rest[i] == changes[i]);
                assert(delta::stored(after, changes[i].key) == delta::stored(
                    before,
                    changes[i].key,
                ));
            }
        }
        assert forall|k: K| !names_key(changes, k) implies #[trigger] delta::stored(after, k)
            == delta::stored(m, k) by {
            assert(changes[n].key != k);
            if names_key(rest, k) {
                let i = choose|i: int| 0 <= i < rest.len() && (#[trigger] rest[i]).key == k;
                assert(changes[i].key == k);
            }
            assert(delta::stored(before, k) == delta::stored(m, k));
        }
    }
}

/// A delta brings every key that it names to the value that it recorded for the
/// direction, in all four channels, brings the tick counter along, and leaves every
/// other key as it was.
pub proof fn law_delta_sets_what_it_names(m: StateModel, d: DeltaModel, forward: bool)
    requires
        d.fits(m),
        d.changes_once(),
    ensures
        ({
            let after = m.moved(d, forward);
            &&& after.frame == if forward {
                d.frame_after
            } else {
                d.frame_before
            }
            &&& after.vars.len() == m.vars.len()
            &&& after.memory.len() == m.memory.len()
            &&& forall|i: int|
                0 <= i < d.vars.len() ==> after.vars[(#[trigger] d.vars[i]).key] == if forward {
                    d.vars[i].after
                } else {
                    d.vars[i].before
                }
            &&& forall|i: int|
                0 <= i < d.memory.len() ==> after.memory[(#[trigger] d.memory[i]).key]
                    == if forward {
                    d.memory[i].after
                } else {
                    d.memory[i].before
                }
            &&& forall|i: int|
                0 <= i < d.extended.len() ==> delta::stored(
                    after.extended,
                    (#[trigger] d.extended[i]).key,
                ) == if forward {
                    d.extended[i].after
                } else {
                    d.extended[i].before
                }
            &&& forall|i: int|
                0 <= i < d.strings.len() ==> delta::stored(
                    after.strings,
                    (#[trigger] d.strings[i]).key,
                ) == if forward {
                    d.strings[i].after
                } else {
                    d.strings[i].before
                }
        }),
        ({
            let after = m.moved(d, forward);
            &&& forall|k: int|
                0 <= k < m.vars.len() && !names_key(d.vars, k) ==> #[trigger] after.vars[k]
                    == m.vars[k]
            &&& forall|k: int|
                0 <= k < m.memory.len() && !names_key(d.memory, k) ==> #[trigger] after.memory[k]
                    == m.memory[k]
            &&& forall|k: i32|
                !names_key(d.extended, k) ==> #[trigger] delta::stored(after.extended, k)
                    == delta::stored(m.extended, k)
            &&& forall|k: Seq<char>|
                !names_key(d.strings, k) ==> #[trigger] delta::stored(after.strings, k)
                    == delta::stored(m.strings, k)
        }),
{
    lemma_moved_seq(m.vars, d.vars, forward);
    lemma_moved_seq(m.memory, d.memory, forward);
    lemma_moved_map(m.extended, d.extended, forward);
    lemma_moved_map(m.strings, d.strings, forward);
}

// ---------------------------------------------------------------------------
// Declarations
// ---------------------------------------------------------------------------

/// The number that a declaration gives, wrapped to 32 bits; 0 where it gives none.
pub open spec fn declares(p: PropertyDef, value: i32) -> bool {
    match p.initial_value {
        Some(crate::types::CssValue::Integer(v)) => value == v as i32,
        _ => value == 0,
    }
}

/// Is this the last declaration of a variable of that name?
pub open spec fn last_declaration(props: Seq<PropertyDef>, i: int, name: Seq<char>) -> bool {
    &&& 0 <= i < props.len()
    &&& props[i].is_variable()
    &&& names::bare(props[i].name@) == name
    &&& forall|j: int|
        i < j < props.len() && (#[trigger] props[j]).is_variable() ==> names::bare(props[j].name@)
            != name
}

proof fn lemma_declared(props: Seq<PropertyDef>, name: Seq<char>)
    ensures
        load::declared_names(props).len() == load::declared_values(props).len(),
        forall|i: int|
            #[trigger] last_declaration(props, i, name) ==> (state::last_index(
                load::declared_names(props),
                name,
            ) matches Some(k) && 0 <= k < load::declared_values(props).len() && declares(
                props[i],
                load::declared_values(props)[k],
            )),
        (forall|i: int|
            0 <= i < props.len() && (#[trigger] props[i]).is_variable() ==> names::bare(
                props[i].name@,
            ) != name) ==> state::last_index(load::declared_names(props), name) is None,
    decreases props.len(),
{
    if props.len() > 0 {
        let rest = props.drop_last();
        let n = rest.len() as int;
        lemma_declared(rest, name);
        let last = props.last();
        assert(props[n] == last);
        let old_names = load::declared_names(rest);
        let old_values = load::declared_values(rest);
        let all_names = load::declared_names(props);
        let all_values = load::declared_values(props);
        if last.is_variable() {
            assert(all_names.drop_last() =~= old_names);
            assert(all_names.last() == names::bare(last.name@));
        }
        assert forall|i: int| #[trigger] last_declaration(props, i, name) implies (
        state::last_index(all_names, name) matches Some(k) && 0 <= k < all_values.len() && declares(
            props[i],
            all_values[k],
        )) by {
            if i < n {
                assert(rest[i] == props[i]);
                assert(last_declaration(rest, i, name)) by {
                    assert forall|j: int|
                        i < j < rest.len() && (#[trigger] rest[j]).is_variable() implies
                        names::bare(rest[j].name@) != name by {
                        assert(props[j] == rest[j]);
                    }
                }
                if last.is_variable() {
                    assert(names::bare(props[n].name@) != name);
                }
            }
        }
        if forall|i: int|
            0 <= i < props.len() && (#[trigger] props[i]).is_variable() ==> names::bare(
                props[i].name@,
            ) != name {
            assert forall|i: int|
                0 <= i < rest.len() && (#[trigger] rest[i]).is_variable() implies names::bare(
                rest[i].name@,
            ) != name by {
                assert(props[i] == rest[i]);
            }
            if last.is_variable() {
                assert(names::bare(props[n].name@) != name);
            }
        }
    }
}

/// After loading declarations a variable holds what its last declaration gives, and
/// there are no other variables.
pub proof fn law_loaded_variables(
    m: StateModel,
    props: Seq<PropertyDef>,
    i: int,
    name: Seq<char>,
)
    ensures
        last_declaration(props, i, name) ==> (m.loaded(props).var(name) matches Some(v)
            && declares(props[i], v)),
        (forall|j: int|
            0 <= j < props.len() && (#[trigger] props[j]).is_variable() ==> names::bare(
                props[j].name@,
            ) != name) ==> m.loaded(props).var(name) is None,
{
    lemma_declared(props, name);
    let start = StateModel {
        vars: load::declared_values(props),
        names: load::declared_names(props),
        memory: load::grown(m.memory, load::needed_size(load::declared_bytes(props))),
        ..m
    };
    lemma_addresses(props);
    lemma_bytes_keep(start, load::declared_bytes(props));
}

/// Declared addresses are not negative.
proof fn lemma_addresses(props: Seq<PropertyDef>)
    ensures
        forall|i: int|
            0 <= i < load::declared_bytes(props).len() ==> (#[trigger] load::declared_bytes(
                props,
            )[i]).0 >= 0,
    decreases props.len(),
{
    if props.len() > 0 {
        lemma_addresses(props.drop_last());
        let p = props.last();
        if let Some(addr) = load::memory_address(names::bare(p.name@)) {
            text::lemma_decimal_nonnegative(text::dropped(names::bare(p.name@), 1));
        }
        let bytes = load::declared_bytes(props);
        let old = load::declared_bytes(props.drop_last());
        assert forall|i: int| 0 <= i < bytes.len() implies (#[trigger] bytes[i]).0 >= 0 by {
            if i < old.len() {
                assert(bytes[i] == old[i]);
            }
        }
    }
}

proof fn lemma_bytes_keep(m: StateModel, bytes: Seq<(int, u8)>)
    requires
        forall|i: int| 0 <= i < bytes.len() ==> (#[trigger] bytes[i]).0 >= 0,
    ensures
        m.with_bytes(bytes).vars == m.vars,
        m.with_bytes(bytes).names == m.names,
        m.with_bytes(bytes).memory.len() == m.memory.len(),
    decreases bytes.len(),
{
    if bytes.len() > 0 {
        let rest = bytes.drop_last();
        assert forall|i: int| 0 <= i < rest.len() implies (#[trigger] rest[i]).0 >= 0 by {
            assert(rest[i] == bytes[i]);
        }
        lemma_bytes_keep(m, rest);
        assert(bytes[bytes.len() - 1] == bytes.last());
    }
}

/// Is this the last declaration of the byte at an address?
pub open spec fn last_byte(props: Seq<PropertyDef>, i: int, addr: int) -> bool {
    &&& 0 <= i < props.len()
    &&& props[i].byte() matches Some((a, _))
    &&& a == addr
    &&& forall|j: int|
        i < j < props.len() ==> !((#[trigger] props[j]).byte() matches Some((a, _)) && a == addr)
}

/// Is the address declared at all?
pub open spec fn byte_declared(props: Seq<PropertyDef>, addr: int) -> bool {
    exists|i: int|
        0 <= i < props.len() && ((#[trigger] props[i]).byte() matches Some((a, _)) && a == addr)
}

proof fn lemma_needed(props: Seq<PropertyDef>)
    ensures
        forall|i: int|
            0 <= i < props.len() ==> ((#[trigger] props[i]).byte() matches Some((a, _)) ==> (a
                < EXTENDED_BASE ==> a < load::needed_size(load::declared_bytes(props)))),
    decreases props.len(),
{
    if props.len() > 0 {
        let rest = props.drop_last();
        lemma_needed(rest);
        let bytes = load::declared_bytes(props);
        let n = rest.len() as int;
        assert(props[n] == props.last());
        if let Some(b) = props.last().byte() {
            assert(bytes.drop_last() =~= load::declared_bytes(rest));
            assert(bytes.last() == b);
        }
        assert forall|i: int| 0 <= i < props.len() implies ((#[trigger] props[i]).byte() matches Some(
            (a, _),
        ) ==> (a < EXTENDED_BASE ==> a < load::needed_size(bytes))) by {
            if i < n {
                assert(rest[i] == props[i]);
            }
        }
    }
}

proof fn lemma_bytes(m: StateModel, props: Seq<PropertyDef>, addr: int)
    requires
        0 <= addr < EXTENDED_BASE,
        addr < m.memory.len(),
    ensures
        forall|i: int|
            #[trigger] last_byte(props, i, addr) ==> m.with_bytes(
                load::declared_bytes(props),
            ).memory[addr] == (props[i].byte()->0).1,
        !byte_declared(props, addr) ==> m.with_bytes(load::declared_bytes(props)).memory[addr]
            == m.memory[addr],
    decreases props.len(),
{
    if props.len() > 0 {
        let rest = props.drop_last();
        let n = rest.len() as int;
        lemma_bytes(m, rest, addr);
        let bytes = load::declared_bytes(props);
        let last = props.last();
        assert(props[n] == last);
        lemma_addresses(rest);
        lemma_addresses(props);
        lemma_bytes_keep(m, load::declared_bytes(rest));
        if let Some(b) = last.byte() {
            assert(bytes.drop_last() =~= load::declared_bytes(rest));
            assert(bytes.last() == b);
            assert(bytes[bytes.len() - 1].0 >= 0);
        }
        assert forall|i: int| #[trigger] last_byte(props, i, addr) implies m.with_bytes(
            bytes,
        ).memory[addr] == (props[i].byte()->0).1 by {
            if i < n {
                assert(rest[i] == props[i]);
                assert(last_byte(rest, i, addr)) by {
                    assert forall|j: int| i < j < rest.len() implies !((
                    #[trigger] rest[j]).byte() matches Some((a, _)) && a == addr) by {
                        assert(props[j] == rest[j]);
                    }
                }
                assert(!(props[n].byte() matches Some((a, _)) && a == addr));
            }
        }
        if !byte_declared(props, addr) {
            assert(!byte_declared(rest, addr)) by {
                if byte_declared(rest, addr) {
                    let i = choose|i: int|
                        0 <= i < rest.len() && ((#[trigger] rest[i]).byte() matches Some((a, _))
                            && a == addr);
                    assert(props[i] == rest[i]);
                }
            }
            assert(!(props[n].byte() matches Some((a, _)) && a == addr));
        }
    }
}

/// After loading declarations memory reaches every declared byte below the extended
/// range and holds there the low byte of its last declaration; an address that is not
/// declared holds what it held, or 0 where memory has grown.
pub proof fn law_loaded_bytes(m: StateModel, props: Seq<PropertyDef>, i: int, addr: int)
    requires
        0 <= addr < EXTENDED_BASE,
    ensures
        last_byte(props, i, addr) ==> addr < m.loaded(props).memory.len() && exists|v: i32|
            #[trigger] declares(props[i], v) && m.loaded(props).memory[addr] == v as int % 256,
        !byte_declared(props, addr) && addr < m.loaded(props).memory.len() ==> m.loaded(
            props,
        ).memory[addr] == if addr < m.memory.len() {
            m.memory[addr]
        } else {
            0
        },
{
    let bytes = load::declared_bytes(props);
    let start = StateModel {
        vars: load::declared_values(props),
        names: load::declared_names(props),
        memory: load::grown(m.memory, load::needed_size(bytes)),
        ..m
    };
    lemma_needed(props);
    lemma_addresses(props);
    lemma_bytes_keep(start, bytes);
    if last_byte(props, i, addr) {
        assert(props[i].byte() matches Some((a, _)) && a == addr);
        lemma_bytes(start, props, addr);
        let v = props[i].initial();
        assert(v & 0xFF == v % 0x100 && 0 <= (v & 0xFF) < 0x100) by (bit_vector);
        assert(declares(props[i], v));
    } else if addr < start.memory.len() {
        lemma_bytes(start, props, addr);
    }
}

// ---------------------------------------------------------------------------
// Snapshots
// ---------------------------------------------------------------------------

/// The little-endian number of the four bytes at a place.
pub open spec fn word_at(b: Seq<u8>, p: int) -> int {
    b[p] + 0x100 * b[p + 1] + 0x1_0000 * b[p + 2] + 0x100_0000 * b[p + 3]
}

/// A signed number as the number of its 32 bits.
pub open spec fn unsigned(v: i32) -> int {
    if v < 0 {
        v + 0x1_0000_0000
    } else {
        v as int
    }
}

/// Does `tail` stand in `b` from a place on, up to the end?
spec fn ends_with(b: Seq<u8>, p: int, tail: Seq<u8>) -> bool {
    0 <= p && b.len() == p + tail.len() && forall|q: int|
        0 <= q < tail.len() ==> #[trigger] b[p + q] == tail[q]
}

proof fn lemma_ends(b: Seq<u8>, p: int, head: Seq<u8>, rest: Seq<u8>)
    requires
        ends_with(b, p, head + rest),
    ensures
        ends_with(b, p + head.len(), rest),
        forall|q: int| 0 <= q < head.len() ==> #[trigger] b[p + q] == head[q],
{
    let tail = head + rest;
    assert forall|q: int| 0 <= q < rest.len() implies #[trigger] b[p + head.len() + q]
        == rest[q] by {
        assert(b[p + (head.len() + q)] == tail[head.len() + q]);
    }
    assert forall|q: int| 0 <= q < head.len() implies #[trigger] b[p + q] == head[q] by {
        assert(b[p + q] == tail[q]);
    }
}

proof fn lemma_le(x: u32)
    ensures
        snapshot::le_bytes(x).len() == 4,
        word_at(snapshot::le_bytes(x), 0) == x,
{
    reveal(snapshot::le_bytes);
}

proof fn lemma_ends_word(b: Seq<u8>, p: int, x: u32, rest: Seq<u8>)
    requires
        ends_with(b, p, snapshot::le_bytes(x) + rest),
    ensures
        ends_with(b, p + 4, rest),
        word_at(b, p) == x,
{
    lemma_le(x);
    let head = snapshot::le_bytes(x);
    lemma_ends(b, p, head, rest);
    assert(b[p + 0] == head[0] && b[p + 1] == head[1] && b[p + 2] == head[2] && b[p + 3]
        == head[3]);
}

proof fn lemma_unsigned(v: i32)
    ensures
        (v as u32) as int == unsigned(v),
{
    assert((v as u32) == if v < 0 {
        v + 0x1_0000_0000
    } else {
        v as int
    }) by (bit_vector);
}

proof fn lemma_words(words: Seq<i32>)
    ensures
        snapshot::words_bytes(words).len() == 4 * words.len(),
        forall|i: int|
            0 <= i < words.len() ==> word_at(snapshot::words_bytes(words), 4 * i) == unsigned(
                #[trigger] words[i],
            ),
    decreases words.len(),
{
    if words.len() > 0 {
        let rest = words.drop_last();
        lemma_words(rest);
        let old = snapshot::words_bytes(rest);
        let all = snapshot::words_bytes(words);
        let n = rest.len() as int;
        lemma_le(words.last() as u32);
        lemma_unsigned(words.last());
        assert forall|i: int| 0 <= i < words.len() implies word_at(all, 4 * i) == unsigned(
            #[trigger] words[i],
        ) by {
            if i < n {
                assert(rest[i] == words[i]);
                assert(word_at(all, 4 * i) == word_at(old, 4 * i));
            } else {
                assert(word_at(all, 4 * n) == word_at(
                    snapshot::le_bytes(words.last() as u32),
                    0,
                ));
            }
        }
    }
}

proof fn lemma_cells(cells: Seq<(i32, i32)>)
    ensures
        snapshot::cells_bytes(cells).len() == 8 * cells.len(),
        forall|i: int|
            0 <= i < cells.len() ==> word_at(snapshot::cells_bytes(cells), 8 * i) == unsigned(
                (#[trigger] cells[i]).0,
            ) && word_at(snapshot::cells_bytes(cells), 8 * i + 4) == unsigned(cells[i].1),
    decreases cells.len(),
{
    if cells.len() > 0 {
        let rest = cells.drop_last();
        lemma_cells(rest);
        let old = snapshot::cells_bytes(rest);
        let all = snapshot::cells_bytes(cells);
        let n = rest.len() as int;
        let last = cells.last();
        lemma_le(last.0 as u32);
        lemma_le(last.1 as u32);
        lemma_unsigned(last.0);
        lemma_unsigned(last.1);
        assert forall|i: int| 0 <= i < cells.len() implies word_at(all, 8 * i) == unsigned(
            (#[trigger] cells[i]).0,
        ) && word_at(all, 8 * i + 4) == unsigned(cells[i].1) by {
            if i < n {
                assert(rest[i] == cells[i]);
                assert(word_at(all, 8 * i) == word_at(old, 8 * i));
                assert(word_at(all, 8 * i + 4) == word_at(old, 8 * i + 4));
            } else {
                assert(word_at(all, 8 * n) == word_at(snapshot::le_bytes(last.0 as u32), 0));
                assert(word_at(all, 8 * n + 4) == word_at(snapshot::le_bytes(last.1 as u32), 0));
            }
        }
    }
}

/// How a snapshot is laid out, all numbers in four bytes with the lowest first: the
/// letters `CSNP`, version 1, the number of variables and the variables, the size of
/// memory and memory, the number of extended words and for each its address and
/// value, the number of string properties and the strings, and in its last four bytes
/// the tick counter.
pub proof fn law_snapshot_layout(
    m: StateModel,
    cells: Seq<(i32, i32)>,
    texts: Seq<(Seq<char>, Seq<char>)>,
)
    requires
        m.vars.len() <= u32::MAX,
        m.memory.len() <= u32::MAX,
        cells.len() <= u32::MAX,
        texts.len() <= u32::MAX,
    ensures
        ({
            let b = m.encoded(cells, texts);
            let at_memory = 12 + 4 * m.vars.len() as int;
            let at_cells = at_memory + 4 + m.memory.len() as int;
            let at_texts = at_cells + 4 + 8 * cells.len() as int;
            &&& b.len() >= at_texts + 8
            &&& b[0] == 'C' as u8 && b[1] == 'S' as u8 && b[2] == 'N' as u8 && b[3] == 'P' as u8
            &&& word_at(b, 4) == 1
            &&& word_at(b, 8) == m.vars.len()
            &&& forall|i: int|
                0 <= i < m.vars.len() ==> word_at(b, 12 + 4 * i) == unsigned(#[trigger] m.vars[i])
            &&& word_at(b, at_memory) == m.memory.len()
            &&& forall|i: int|
                0 <= i < m.memory.len() ==> b[at_memory + 4 + i] == #[trigger] m.memory[i]
            &&& word_at(b, at_cells) == cells.len()
            &&& forall|i: int|
                0 <= i < cells.len() ==> word_at(b, at_cells + 4 + 8 * i) == unsigned(
                    (#[trigger] cells[i]).0,
                ) && word_at(b, at_cells + 8 + 8 * i) == unsigned(cells[i].1)
            &&& word_at(b, at_texts) == texts.len()
            &&& word_at(b, b.len() - 4) == m.frame
        }),
{
    let b = m.encoded(cells, texts);
    let frame = snapshot::le_bytes(m.frame);
    let strings = snapshot::texts_bytes(texts);
    let t8 = strings + frame;
    let t7 = snapshot::le_bytes(texts.len() as u32) + t8;
    let words = snapshot::cells_bytes(cells);
    let t6 = words + t7;
    let t5 = snapshot::le_bytes(cells.len() as u32) + t6;
    let t4 = m.memory + t5;
    let t3 = snapshot::le_bytes(m.memory.len() as u32) + t4;
    let vars = snapshot::words_bytes(m.vars);
    let t2 = vars + t3;
    let t1 = snapshot::le_bytes(m.vars.len() as u32) + t2;
    let t0 = snapshot::le_bytes(snapshot::SNAPSHOT_VERSION) + t1;
    assert(b == snapshot::magic() + t0);
    assert(ends_with(b, 0, snapshot::magic() + t0));
    lemma_ends(b, 0, snapshot::magic(), t0);
    assert(b[0] == 0x43 && b[1] == 0x53 && b[2] == 0x4E && b[3] == 0x50);
    lemma_ends_word(b, 4, snapshot::SNAPSHOT_VERSION, t1);
    lemma_ends_word(b, 8, m.vars.len() as u32, t2);
    lemma_words(m.vars);
    lemma_ends(b, 12, vars, t3);
    assert forall|i: int| 0 <= i < m.vars.len() implies word_at(b, 12 + 4 * i) == unsigned(
        #[trigger] m.vars[i],
    ) by {
        lemma_same_word(b, 12, vars, 4 * i);
    }
    let at_memory = 12 + 4 * m.vars.len() as int;
    lemma_ends_word(b, at_memory, m.memory.len() as u32, t4);
    lemma_ends(b, at_memory + 4, m.memory, t5);
    assert forall|i: int| 0 <= i < m.memory.len() implies b[at_memory + 4 + i]
        == #[trigger] m.memory[i] by {
        assert(b[(at_memory + 4) + i] == m.memory[i]);
    }
    let at_cells = at_memory + 4 + m.memory.len() as int;
    lemma_ends_word(b, at_cells, cells.len() as u32, t6);
    lemma_cells(cells);
    lemma_ends(b, at_cells + 4, words, t7);
    assert forall|i: int| 0 <= i < cells.len() implies word_at(b, at_cells + 4 + 8 * i) == unsigned(
        (#[trigger] cells[i]).0,
    ) && word_at(b, at_cells + 8 + 8 * i) == unsigned(cells[i].1) by {
        lemma_same_word(b, at_cells + 4, words, 8 * i);
        lemma_same_word(b, at_cells + 4, words, 8 * i + 4);
        assert(at_cells + 8 + 8 * i == at_cells + 4 + (8 * i + 4));
    }
    let at_texts = at_cells + 4 + 8 * cells.len() as int;
    lemma_ends_word(b, at_texts, texts.len() as u32, t8);
    lemma_ends(b, at_texts + 4, strings, frame);
    lemma_le(m.frame);
    assert(frame + Seq::empty() =~= frame);
    lemma_ends_word(b, at_texts + 4 + strings.len(), m.frame, Seq::empty());
}

proof fn lemma_same_word(b: Seq<u8>, p: int, part: Seq<u8>, q: int)
    requires
        forall|q: int| 0 <= q < part.len() ==> #[trigger] b[p + q] == part[q],
        0 <= q,
        q + 4 <= part.len(),
    ensures
        word_at(b, p + q) == word_at(part, q),
{
    assert(b[p + q] == part[q]);
    assert(b[p + (q + 1)] == part[q + 1]);
    assert(b[p + (q + 2)] == part[q + 2]);
    assert(b[p + (q + 3)] == part[q + 3]);
}

proof fn lemma_take_word(b: Seq<u8>, p: int)
    requires
        0 <= p <= b.len(),
    ensures
        snapshot::take_u32(b.subrange(p, b.len() as int)) == if p + 4 <= b.len() {
            Some((word_at(b, p) as u32, b.subrange(p + 4, b.len() as int)))
        } else {
            None
        },
{
    let rest = b.subrange(p, b.len() as int);
    if p + 4 <= b.len() {
        reveal(snapshot::from_le);
        let head = rest.subrange(0, 4);
        assert(head[0] == b[p] && head[1] == b[p + 1] && head[2] == b[p + 2] && head[3] == b[p
            + 3]);
        assert(rest.subrange(4, rest.len() as int) =~= b.subrange(p + 4, b.len() as int));
    }
}

/// What a restore refuses before it touches the state: fewer bytes than a header has,
/// other letters than `CSNP`, another version than 1, and another number of variables
/// than the state has. Each gives its own message and leaves the state as it was.
pub proof fn law_restore_refuses_what_does_not_fit(m: StateModel, b: Seq<u8>)
    ensures
        ({
            let r = snapshot::read_snapshot(m, b);
            let named = b.len() >= 4 && b[0] == 'C' as u8 && b[1] == 'S' as u8 && b[2] == 'N' as u8
                && b[3] == 'P' as u8;
            let refused = |message: Seq<char>|
                r == (snapshot::Reading { state: m, rest: Err(message) });
            &&& b.len() < 4 ==> refused("snapshot truncated"@)
            &&& b.len() >= 4 && !named ==> refused("snapshot: bad magic (expected CSNP)"@)
            &&& named && b.len() < 8 ==> refused("snapshot truncated"@)
            &&& named && b.len() >= 8 && word_at(b, 4) != 1 ==> refused(
                "snapshot: unsupported version"@,
            )
            &&& named && b.len() >= 8 && word_at(b, 4) == 1 && b.len() < 12 ==> refused(
                "snapshot truncated"@,
            )
            &&& named && b.len() >= 12 && word_at(b, 4) == 1 && word_at(b, 8) != m.vars.len()
                ==> refused("snapshot: state_vars length mismatch (different cabinet?)"@)
        }),
{
    if b.len() >= 4 {
        let head = b.subrange(0, 4);
        assert(head[0] == b[0] && head[1] == b[1] && head[2] == b[2] && head[3] == b[3]);
        let magic = snapshot::magic();
        assert(magic.len() == 4 && magic[0] == 0x43 && magic[1] == 0x53 && magic[2] == 0x4E
            && magic[3] == 0x50);
        if head[0] == 0x43 && head[1] == 0x53 && head[2] == 0x4E && head[3] == 0x50 {
            assert(head =~= magic);
        }
        lemma_take_word(b, 4);
        if b.len() >= 8 {
            lemma_take_word(b, 8);
        }
    }
}

} // verus!

//! Binary snapshots of the runtime part of a state.
//!
//! A snapshot holds, all integers little-endian: the magic `CSNP`, the version,
//! the variables, memory, the extended words, the string properties and the
//! tick counter, each list preceded by its length. Names, packed layout and
//! input edges are not part of it: they belong to the program, and a snapshot is
//! restored into a state that was set up for the same program.

use crate::fx;
use crate::state::{State, StateModel};
use crate::tables;
use crate::tables::StringTable;
use vstd::prelude::*;
use vstd::utf8::*;

verus! {

/// Version of the format.
pub const SNAPSHOT_VERSION: u32 = 1;

/// The four little-endian bytes of a number.
#[verifier::opaque]
pub open spec fn le_bytes(x: u32) -> Seq<u8> {
    seq![
        (x as int % 256) as u8,
        (x as int / 256 % 256) as u8,
        (x as int / 65536 % 256) as u8,
        (x as int / 16777216) as u8,
    ]
}

/// The number with the given little-endian bytes.
#[verifier::opaque]
pub open spec fn from_le(b: Seq<u8>) -> u32 {
    (b[0] + 256 * b[1] + 65536 * b[2] + 16777216 * b[3]) as u32
}

/// The magic at the start of a snapshot: `CSNP`.
pub open spec fn magic() -> Seq<u8> {
    seq![0x43u8, 0x53, 0x4E, 0x50]
}

/// The bytes of a list of words.
pub open spec fn words_bytes(words: Seq<i32>) -> Seq<u8>
    decreases words.len(),
{
    if words.len() == 0 {
        Seq::empty()
    } else {
        words_bytes(words.drop_last()) + le_bytes(words.last() as u32)
    }
}

/// The bytes of a list of addressed words.
pub open spec fn cells_bytes(cells: Seq<(i32, i32)>) -> Seq<u8>
    decreases cells.len(),
{
    if cells.len() == 0 {
        Seq::empty()
    } else {
        cells_bytes(cells.drop_last()) + (le_bytes(cells.last().0 as u32) + le_bytes(
            cells.last().1 as u32,
        ))
    }
}

/// The bytes of one string: its length in UTF-8, then the UTF-8 bytes.
pub open spec fn text_bytes(s: Seq<char>) -> Seq<u8> {
    le_bytes(encode_utf8(s).len() as u32) + encode_utf8(s)
}

/// The bytes of a list of named strings.
pub open spec fn texts_bytes(texts: Seq<(Seq<char>, Seq<char>)>) -> Seq<u8>
    decreases texts.len(),
{
    if texts.len() == 0 {
        Seq::empty()
    } else {
        texts_bytes(texts.drop_last()) + (text_bytes(texts.last().0) + text_bytes(texts.last().1))
    }
}

impl StateModel {
    /// The snapshot of a state, with its two tables walked in the given order.
    pub open spec fn encoded(
        self,
        cells: Seq<(i32, i32)>,
        texts: Seq<(Seq<char>, Seq<char>)>,
    ) -> Seq<u8> {
        magic() + (le_bytes(SNAPSHOT_VERSION) + (le_bytes(self.vars.len() as u32) + (words_bytes(
            self.vars,
        ) + (le_bytes(self.memory.len() as u32) + (self.memory + (le_bytes(cells.len() as u32) + (
        cells_bytes(cells) + (le_bytes(texts.len() as u32) + (texts_bytes(texts) + le_bytes(
            self.frame,
        ))))))))))
    }

    /// The snapshot of a state: extended words by increasing address, string
    /// properties in dictionary order.
    pub open spec fn snapshot_bytes(self) -> Seq<u8> {
        self.encoded(tables::sorted_cells(self.extended), tables::sorted_texts(self.strings))
    }
}

// ---------------------------------------------------------------------------
// Reading back
// ---------------------------------------------------------------------------

/// The first `n` bytes and what follows them.
pub open spec fn take(b: Seq<u8>, n: int) -> Option<(Seq<u8>, Seq<u8>)> {
    if n <= b.len() {
        Some((b.subrange(0, n), b.subrange(n, b.len() as int)))
    } else {
        None
    }
}

/// The first number and what follows it.
pub open spec fn take_u32(b: Seq<u8>) -> Option<(u32, Seq<u8>)> {
    match take(b, 4) {
        Some((head, rest)) => Some((from_le(head), rest)),
        None => None,
    }
}

/// A state on the way through a snapshot: what it holds so far, and either the
/// bytes that are left or the error that ended the reading.
#[verifier::ext_equal]
pub struct Reading {
    pub state: StateModel,
    pub rest: Result<Seq<u8>, Seq<char>>,
}

/// Reads the variables from `slot` on.
pub open spec fn read_vars(m: StateModel, b: Seq<u8>, slot: int) -> Reading
    decreases m.vars.len() - slot,
{
    if !(0 <= slot < m.vars.len()) {
        Reading { state: m, rest: Ok(b) }
    } else {
        match take_u32(b) {
            None => Reading { state: m, rest: Err("snapshot truncated"@) },
            Some((v, rest)) => read_vars(
                StateModel { vars: m.vars.update(slot, v as i32), ..m },
                rest,
                slot + 1,
            ),
        }
    }
}

/// Reads `count` addressed words.
pub open spec fn read_cells(m: StateModel, b: Seq<u8>, count: int) -> Reading
    decreases count,
{
    if count <= 0 {
        Reading { state: m, rest: Ok(b) }
    } else {
        match take_u32(b) {
            None => Reading { state: m, rest: Err("snapshot truncated"@) },
            Some((addr, b1)) => match take_u32(b1) {
                None => Reading { state: m, rest: Err("snapshot truncated"@) },
                Some((value, b2)) => read_cells(
                    StateModel { extended: m.extended.insert(addr as i32, value as i32), ..m },
                    b2,
                    count - 1,
                ),
            },
        }
    }
}

/// A length-prefixed run of bytes and what follows it.
pub open spec fn take_run(b: Seq<u8>) -> Option<(Seq<u8>, Seq<u8>)> {
    match take_u32(b) {
        Some((n, rest)) => take(rest, n as int),
        None => None,
    }
}

/// Reads `count` named strings.
pub open spec fn read_texts(m: StateModel, b: Seq<u8>, count: int) -> Reading
    decreases count,
{
    if count <= 0 {
        Reading { state: m, rest: Ok(b) }
    } else {
        match take_run(b) {
            None => Reading { state: m, rest: Err("snapshot truncated"@) },
            Some((name, b1)) => match take_run(b1) {
                None => Reading { state: m, rest: Err("snapshot truncated"@) },
                Some((value, b2)) => if !valid_utf8(name) {
                    Reading { state: m, rest: Err("snapshot: bad utf-8 in name"@) }
                } else if !valid_utf8(value) {
                    Reading { state: m, rest: Err("snapshot: bad utf-8 in value"@) }
                } else {
                    read_texts(
                        StateModel {
                            strings: m.strings.insert(decode_utf8(name), decode_utf8(value)),
                            ..m
                        },
                        b2,
                        count - 1,
                    )
                },
            },
        }
    }
}

/// Reads the tick counter; bytes after it are ignored.
pub open spec fn read_frame(m: StateModel, b: Seq<u8>) -> Reading {
    match take_u32(b) {
        None => Reading { state: m, rest: Err("snapshot truncated"@) },
        Some((frame, rest)) => Reading { state: StateModel { frame, ..m }, rest: Ok(rest) },
    }
}

/// Reads the string properties and what follows them.
pub open spec fn read_texts_on(m: StateModel, b: Seq<u8>) -> Reading {
    match take_u32(b) {
        None => Reading { state: m, rest: Err("snapshot truncated"@) },
        Some((count, b1)) => {
            let r = read_texts(StateModel { strings: Map::empty(), ..m }, b1, count as int);
            match r.rest {
                Err(_) => r,
                Ok(b2) => read_frame(r.state, b2),
            }
        },
    }
}

/// Reads the extended words and what follows them.
pub open spec fn read_cells_on(m: StateModel, b: Seq<u8>) -> Reading {
    match take_u32(b) {
        None => Reading { state: m, rest: Err("snapshot truncated"@) },
        Some((count, b1)) => {
            let r = read_cells(StateModel { extended: Map::empty(), ..m }, b1, count as int);
            match r.rest {
                Err(_) => r,
                Ok(b2) => read_texts_on(r.state, b2),
            }
        },
    }
}

/// Reads memory and what follows it.
pub open spec fn read_memory_on(m: StateModel, b: Seq<u8>) -> Reading {
    match take_u32(b) {
        None => Reading { state: m, rest: Err("snapshot truncated"@) },
        Some((size, b1)) => if size != m.memory.len() {
            Reading {
                state: m,
                rest: Err("snapshot: memory length mismatch (different cabinet?)"@),
            }
        } else {
            match take(b1, size as int) {
                None => Reading { state: m, rest: Err("snapshot truncated"@) },
                Some((memory, b2)) => read_cells_on(StateModel { memory, ..m }, b2),
            }
        },
    }
}

/// Reads the variables and what follows them.
pub open spec fn read_vars_on(m: StateModel, b: Seq<u8>) -> Reading {
    match take_u32(b) {
        None => Reading { state: m, rest: Err("snapshot truncated"@) },
        Some((count, b1)) => if count != m.vars.len() {
            Reading {
                state: m,
                rest: Err("snapshot: state_vars length mismatch (different cabinet?)"@),
            }
        } else {
            let r = read_vars(m, b1, 0);
            match r.rest {
                Err(_) => r,
                Ok(b2) => read_memory_on(r.state, b2),
            }
        },
    }
}

/// Reads a whole snapshot into a state. An error leaves what was read before
/// it in place.
pub open spec fn read_snapshot(m: StateModel, blob: Seq<u8>) -> Reading {
    match take(blob, 4) {
        None => Reading { state: m, rest: Err("snapshot truncated"@) },
        Some((head, b)) => if head != magic() {
            Reading { state: m, rest: Err("snapshot: bad magic (expected CSNP)"@) }
        } else {
            match take_u32(b) {
                None => Reading { state: m, rest: Err("snapshot truncated"@) },
                Some((version, b1)) => if version != SNAPSHOT_VERSION {
                    Reading { state: m, rest: Err("snapshot: unsupported version"@) }
                } else {
                    read_vars_on(m, b1)
                },
            }
        },
    }
}

// ---------------------------------------------------------------------------
// The round trip
// ---------------------------------------------------------------------------

proof fn lemma_le(x: u32)
    ensures
        le_bytes(x).len() == 4,
        from_le(le_bytes(x)) == x,
{
    reveal(le_bytes);
    reveal(from_le);
}

proof fn lemma_take_u32(x: u32, rest: Seq<u8>)
    ensures
        take_u32(le_bytes(x) + rest) == Some((x, rest)),
{
    lemma_le(x);
    let b = le_bytes(x) + rest;
    assert(b.subrange(0, 4) =~= le_bytes(x));
    assert(b.subrange(4, b.len() as int) =~= rest);
}

proof fn lemma_signed(v: i32)
    ensures
        (v as u32) as i32 == v,
{
    assert((v as u32) as i32 == v) by (bit_vector);
}

proof fn lemma_words_split(words: Seq<i32>)
    requires
        words.len() > 0,
    ensures
        words_bytes(words) == le_bytes(words[0] as u32) + words_bytes(
            words.subrange(1, words.len() as int),
        ),
    decreases words.len(),
{
    let tail = words.subrange(1, words.len() as int);
    if words.len() == 1 {
        assert(words.drop_last() =~= Seq::<i32>::empty());
        assert(tail =~= Seq::<i32>::empty());
        assert(words_bytes(words) =~= le_bytes(words[0] as u32) + words_bytes(tail));
    } else {
        lemma_words_split(words.drop_last());
        assert(words.drop_last().subrange(1, words.len() - 1) =~= tail.drop_last());
        assert(words_bytes(words) =~= le_bytes(words[0] as u32) + words_bytes(tail));
    }
}

proof fn lemma_cells_split(cells: Seq<(i32, i32)>)
    requires
        cells.len() > 0,
    ensures
        cells_bytes(cells) == le_bytes(cells[0].0 as u32) + (le_bytes(cells[0].1 as u32)
            + cells_bytes(cells.subrange(1, cells.len() as int))),
    decreases cells.len(),
{
    let tail = cells.subrange(1, cells.len() as int);
    if cells.len() == 1 {
        assert(cells.drop_last() =~= Seq::<(i32, i32)>::empty());
        assert(tail =~= Seq::<(i32, i32)>::empty());
        assert(cells_bytes(cells) =~= le_bytes(cells[0].0 as u32) + (le_bytes(cells[0].1 as u32)
            + cells_bytes(tail)));
    } else {
        lemma_cells_split(cells.drop_last());
        assert(cells.drop_last().subrange(1, cells.len() - 1) =~= tail.drop_last());
        assert(cells_bytes(cells) =~= le_bytes(cells[0].0 as u32) + (le_bytes(cells[0].1 as u32)
            + cells_bytes(tail)));
    }
}

proof fn lemma_texts_split(texts: Seq<(Seq<char>, Seq<char>)>)
    requires
        texts.len() > 0,
    ensures
        texts_bytes(texts) == text_bytes(texts[0].0) + (text_bytes(texts[0].1) + texts_bytes(
            texts.subrange(1, texts.len() as int),
        )),
    decreases texts.len(),
{
    let tail = texts.subrange(1, texts.len() as int);
    if texts.len() == 1 {
        assert(texts.drop_last() =~= Seq::<(Seq<char>, Seq<char>)>::empty());
        assert(tail =~= Seq::<(Seq<char>, Seq<char>)>::empty());
        assert(texts_bytes(texts) =~= text_bytes(texts[0].0) + (text_bytes(texts[0].1)
            + texts_bytes(tail)));
    } else {
        lemma_texts_split(texts.drop_last());
        assert(texts.drop_last().subrange(1, texts.len() - 1) =~= tail.drop_last());
        assert(texts_bytes(texts) =~= text_bytes(texts[0].0) + (text_bytes(texts[0].1)
            + texts_bytes(tail)));
    }
}

proof fn lemma_read_vars(m: StateModel, words: Seq<i32>, slot: int, rest: Seq<u8>)
    requires
        0 <= slot <= m.vars.len(),
        words.len() == m.vars.len() - slot,
    ensures
        read_vars(m, words_bytes(words) + rest, slot) == (Reading {
            state: StateModel { vars: m.vars.subrange(0, slot) + words, ..m },
            rest: Ok(rest),
        }),
    decreases words.len(),
{
    if words.len() == 0 {
        assert(words_bytes(words) + rest =~= rest);
        assert(m.vars.subrange(0, slot) + words =~= m.vars);
    } else {
        let tail = words.subrange(1, words.len() as int);
        lemma_words_split(words);
        lemma_signed(words[0]);
        let after = words_bytes(tail) + rest;
        assert(words_bytes(words) + rest =~= le_bytes(words[0] as u32) + after);
        lemma_take_u32(words[0] as u32, after);
        let m1 = StateModel { vars: m.vars.update(slot, words[0]), ..m };
        lemma_read_vars(m1, tail, slot + 1, rest);
        assert(m1.vars.subrange(0, slot + 1) + tail =~= m.vars.subrange(0, slot) + words);
    }
}

proof fn lemma_read_cells(m: StateModel, cells: Seq<(i32, i32)>, rest: Seq<u8>)
    ensures
        read_cells(m, cells_bytes(cells) + rest, cells.len() as int) == (Reading {
            state: StateModel { extended: inserted(m.extended, cells), ..m },
            rest: Ok(rest),
        }),
    decreases cells.len(),
{
    if cells.len() == 0 {
        assert(cells_bytes(cells) + rest =~= rest);
    } else {
        let tail = cells.subrange(1, cells.len() as int);
        lemma_cells_split(cells);
        lemma_signed(cells[0].0);
        lemma_signed(cells[0].1);
        let b2 = cells_bytes(tail) + rest;
        let b1 = le_bytes(cells[0].1 as u32) + b2;
        assert(cells_bytes(cells) + rest =~= le_bytes(cells[0].0 as u32) + b1);
        lemma_take_u32(cells[0].0 as u32, b1);
        lemma_take_u32(cells[0].1 as u32, b2);
        let m1 = StateModel { extended: m.extended.insert(cells[0].0, cells[0].1), ..m };
        lemma_read_cells(m1, tail, rest);
    }
}

/// A map after inserting pairs from first to last.
pub open spec fn inserted<K, V>(m: Map<K, V>, pairs: Seq<(K, V)>) -> Map<K, V>
    decreases pairs.len(),
{
    if pairs.len() == 0 {
        m
    } else {
        inserted(m.insert(pairs[0].0, pairs[0].1), pairs.subrange(1, pairs.len() as int))
    }
}

proof fn lemma_inserted_last<K, V>(m: Map<K, V>, pairs: Seq<(K, V)>)
    requires
        pairs.len() > 0,
    ensures
        inserted(m, pairs) == inserted(m, pairs.drop_last()).insert(pairs.last().0, pairs.last().1),
    decreases pairs.len(),
{
    let tail = pairs.subrange(1, pairs.len() as int);
    if pairs.len() == 1 {
        assert(tail =~= Seq::<(K, V)>::empty());
        assert(pairs.drop_last() =~= Seq::<(K, V)>::empty());
        assert(inserted(m, pairs) == inserted(m.insert(pairs[0].0, pairs[0].1), tail));
    } else {
        lemma_inserted_last(m.insert(pairs[0].0, pairs[0].1), tail);
        assert(tail.drop_last() =~= pairs.drop_last().subrange(1, pairs.len() - 1));
    }
}

proof fn lemma_inserted_is_map_of<K, V>(pairs: Seq<(K, V)>)
    ensures
        inserted(Map::<K, V>::empty(), pairs) == tables::map_of(pairs),
    decreases pairs.len(),
{
    if pairs.len() > 0 {
        lemma_inserted_last(Map::<K, V>::empty(), pairs);
        lemma_inserted_is_map_of(pairs.drop_last());
    }
}

/// Every string is short enough for its length field.
pub open spec fn texts_fit(texts: Seq<(Seq<char>, Seq<char>)>) -> bool {
    forall|i: int|
        0 <= i < texts.len() ==> encode_utf8((#[trigger] texts[i]).0).len() <= u32::MAX
            && encode_utf8(texts[i].1).len() <= u32::MAX
}

proof fn lemma_take_run(s: Seq<char>, rest: Seq<u8>)
    requires
        encode_utf8(s).len() <= u32::MAX,
    ensures
        take_run(text_bytes(s) + rest) == Some((encode_utf8(s), rest)),
{
    let e = encode_utf8(s);
    let n = e.len() as u32;
    assert(text_bytes(s) + rest =~= le_bytes(n) + (e + rest));
    lemma_take_u32(n, e + rest);
    assert((e + rest).subrange(0, n as int) =~= e);
    assert((e + rest).subrange(n as int, (e + rest).len() as int) =~= rest);
}

proof fn lemma_read_texts(m: StateModel, texts: Seq<(Seq<char>, Seq<char>)>, rest: Seq<u8>)
    requires
        texts_fit(texts),
    ensures
        read_texts(m, texts_bytes(texts) + rest, texts.len() as int) == (Reading {
            state: StateModel { strings: inserted(m.strings, texts), ..m },
            rest: Ok(rest),
        }),
    decreases texts.len(),
{
    if texts.len() == 0 {
        assert(texts_bytes(texts) + rest =~= rest);
    } else {
        let tail = texts.subrange(1, texts.len() as int);
        lemma_texts_split(texts);
        let name = texts[0].0;
        let value = texts[0].1;
        let b2 = texts_bytes(tail) + rest;
        let b1 = text_bytes(value) + b2;
        assert(texts_bytes(texts) + rest =~= text_bytes(name) + b1);
        lemma_take_run(name, b1);
        lemma_take_run(value, b2);
        encode_utf8_valid_utf8(name);
        encode_utf8_valid_utf8(value);
        encode_utf8_decode_utf8(name);
        encode_utf8_decode_utf8(value);
        assert forall|i: int| 0 <= i < tail.len() implies encode_utf8((#[trigger] tail[i]).0).len()
            <= u32::MAX && encode_utf8(tail[i].1).len() <= u32::MAX by {
            assert(tail[i] == texts[i + 1]);
        }
        let m1 = StateModel { strings: m.strings.insert(name, value), ..m };
        lemma_read_texts(m1, tail, rest);
    }
}

proof fn lemma_texts_on(
    m: StateModel,
    texts: Seq<(Seq<char>, Seq<char>)>,
    strings: Map<Seq<char>, Seq<char>>,
    frame: u32,
)
    requires
        fx::lists(texts, strings),
        texts.len() <= u32::MAX,
        texts_fit(texts),
    ensures
        read_texts_on(
            m,
            le_bytes(texts.len() as u32) + (texts_bytes(texts) + le_bytes(frame)),
        ) == (Reading { state: StateModel { strings, frame, ..m }, rest: Ok(Seq::empty()) }),
{
    let last = le_bytes(frame);
    lemma_take_u32(texts.len() as u32, texts_bytes(texts) + last);
    lemma_read_texts(StateModel { strings: Map::empty(), ..m }, texts, last);
    lemma_inserted_is_map_of(texts);
    tables::lemma_listing_rebuilds(texts, strings);
    assert(last + Seq::<u8>::empty() =~= last);
    lemma_take_u32(frame, Seq::empty());
}

proof fn lemma_cells_on(
    m: StateModel,
    cells: Seq<(i32, i32)>,
    extended: Map<i32, i32>,
    texts: Seq<(Seq<char>, Seq<char>)>,
    strings: Map<Seq<char>, Seq<char>>,
    frame: u32,
)
    requires
        fx::lists(cells, extended),
        fx::lists(texts, strings),
        cells.len() <= u32::MAX,
        texts.len() <= u32::MAX,
        texts_fit(texts),
    ensures
        read_cells_on(
            m,
            le_bytes(cells.len() as u32) + (cells_bytes(cells) + (le_bytes(texts.len() as u32) + (
            texts_bytes(texts) + le_bytes(frame)))),
        ) == (Reading {
            state: StateModel { extended, strings, frame, ..m },
            rest: Ok(Seq::empty()),
        }),
{
    let rest = le_bytes(texts.len() as u32) + (texts_bytes(texts) + le_bytes(frame));
    lemma_take_u32(cells.len() as u32, cells_bytes(cells) + rest);
    lemma_read_cells(StateModel { extended: Map::empty(), ..m }, cells, rest);
    lemma_inserted_is_map_of(cells);
    tables::lemma_listing_rebuilds(cells, extended);
    lemma_texts_on(StateModel { extended, ..m }, texts, strings, frame);
}

proof fn lemma_memory_on(
    m: StateModel,
    memory: Seq<u8>,
    cells: Seq<(i32, i32)>,
    extended: Map<i32, i32>,
    texts: Seq<(Seq<char>, Seq<char>)>,
    strings: Map<Seq<char>, Seq<char>>,
    frame: u32,
)
    requires
        fx::lists(cells, extended),
        fx::lists(texts, strings),
        memory.len() == m.memory.len() <= u32::MAX,
        cells.len() <= u32::MAX,
        texts.len() <= u32::MAX,
        texts_fit(texts),
    ensures
        read_memory_on(
            m,
            le_bytes(memory.len() as u32) + (memory + (le_bytes(cells.len() as u32) + (cells_bytes(
                cells,
            ) + (le_bytes(texts.len() as u32) + (texts_bytes(texts) + le_bytes(frame)))))),
        ) == (Reading {
            state: StateModel { memory, extended, strings, frame, ..m },
            rest: Ok(Seq::empty()),
        }),
{
    let rest = le_bytes(cells.len() as u32) + (cells_bytes(cells) + (le_bytes(texts.len() as u32)
        + (texts_bytes(texts) + le_bytes(frame))));
    lemma_take_u32(memory.len() as u32, memory + rest);
    let b = memory + rest;
    assert(b.subrange(0, memory.len() as int) =~= memory);
    assert(b.subrange(memory.len() as int, b.len() as int) =~= rest);
    lemma_cells_on(StateModel { memory, ..m }, cells, extended, texts, strings, frame);
}

proof fn lemma_vars_on(m: StateModel, vars: Seq<i32>, rest: Seq<u8>)
    requires
        vars.len() == m.vars.len() <= u32::MAX,
    ensures
        read_vars_on(m, le_bytes(vars.len() as u32) + (words_bytes(vars) + rest)) == read_memory_on(
            StateModel { vars, ..m },
            rest,
        ),
{
    lemma_take_u32(vars.len() as u32, words_bytes(vars) + rest);
    lemma_read_vars(m, vars, 0, rest);
    assert(m.vars.subrange(0, 0) + vars =~= vars);
}

/// Concatenation from the left is concatenation from the right.
proof fn lemma_regroup(
    a: Seq<u8>,
    b: Seq<u8>,
    c: Seq<u8>,
    d: Seq<u8>,
    e: Seq<u8>,
    f: Seq<u8>,
    g: Seq<u8>,
    h: Seq<u8>,
    i: Seq<u8>,
    j: Seq<u8>,
    k: Seq<u8>,
)
    ensures
        a + b + c + d + e + f + g + h + i + j + k == a + (b + (c + (d + (e + (f + (g + (h + (i + (j
            + k))))))))),
{
    let t = i + (j + k);
    assert(a + b + c + d + e + f + g + h + i + j + k =~= a + b + c + d + e + f + g + h + t);
    let u = f + (g + (h + t));
    assert(a + b + c + d + e + f + g + h + t =~= a + b + c + d + e + u);
    assert(a + b + c + d + e + u =~= a + (b + (c + (d + (e + u)))));
}

/// Restoring a snapshot gives back what was saved: read into any state with the
/// same number of variables and the same memory size, the snapshot of `saved`
/// succeeds and brings over exactly its variables, memory, extended words,
/// string properties and tick counter. Nothing else of the target changes, and
/// it does not matter in which order the tables were walked.
pub proof fn law_restore_gives_back_snapshot(
    saved: StateModel,
    target: StateModel,
    cells: Seq<(i32, i32)>,
    texts: Seq<(Seq<char>, Seq<char>)>,
)
    requires
        fx::lists(cells, saved.extended),
        fx::lists(texts, saved.strings),
        target.vars.len() == saved.vars.len() <= u32::MAX,
        target.memory.len() == saved.memory.len() <= u32::MAX,
        cells.len() <= u32::MAX,
        texts.len() <= u32::MAX,
        texts_fit(texts),
    ensures
        read_snapshot(target, saved.encoded(cells, texts)) == (Reading {
            state: StateModel {
                vars: saved.vars,
                memory: saved.memory,
                extended: saved.extended,
                strings: saved.strings,
                frame: saved.frame,
                ..target
            },
            rest: Ok(Seq::empty()),
        }),
{
    let b3 = le_bytes(saved.memory.len() as u32) + (saved.memory + (le_bytes(cells.len() as u32)
        + (cells_bytes(cells) + (le_bytes(texts.len() as u32) + (texts_bytes(texts) + le_bytes(
        saved.frame,
    ))))));
    let b1 = le_bytes(saved.vars.len() as u32) + (words_bytes(saved.vars) + b3);
    let b0 = le_bytes(SNAPSHOT_VERSION) + b1;
    let blob = magic() + b0;
    assert(blob.subrange(0, 4) =~= magic());
    assert(blob.subrange(4, blob.len() as int) =~= b0);
    lemma_take_u32(SNAPSHOT_VERSION, b1);
    lemma_vars_on(target, saved.vars, b3);
    lemma_memory_on(
        StateModel { vars: saved.vars, ..target },
        saved.memory,
        cells,
        saved.extended,
        texts,
        saved.strings,
        saved.frame,
    );
}

// ---------------------------------------------------------------------------
// Code
// ---------------------------------------------------------------------------

fn push_u32(out: &mut Vec<u8>, x: u32)
    ensures
        final(out)@ == old(out)@ + le_bytes(x),
{
    out.push((x % 256) as u8);
    out.push((x / 256 % 256) as u8);
    out.push((x / 65536 % 256) as u8);
    out.push((x / 16777216) as u8);
    reveal(le_bytes);
    assert(out@ =~= old(out)@ + le_bytes(x));
}

fn push_bytes(out: &mut Vec<u8>, bytes: &[u8])
    ensures
        final(out)@ == old(out)@ + bytes@,
{
    let mut i: usize = 0;
    assert(bytes@.subrange(0, 0) =~= Seq::<u8>::empty());
    assert(out@ =~= old(out)@ + bytes@.subrange(0, 0));
    while i < bytes.len()
        invariant
            i <= bytes@.len(),
            out@ == old(out)@ + bytes@.subrange(0, i as int),
        decreases bytes@.len() - i,
    {
        out.push(bytes[i]);
        i += 1;
        assert(out@ =~= old(out)@ + bytes@.subrange(0, i as int));
    }
    assert(bytes@.subrange(0, i as int) =~= bytes@);
}

fn push_text(out: &mut Vec<u8>, s: &String)
    ensures
        final(out)@ == old(out)@ + text_bytes(s@),
{
    let bytes: &[u8] = s.as_str().as_bytes();
    push_u32(out, bytes.len() as u32);
    push_bytes(out, bytes);
    assert(out@ =~= old(out)@ + text_bytes(s@));
}

fn push_words(out: &mut Vec<u8>, words: &Vec<i32>)
    ensures
        final(out)@ == old(out)@ + words_bytes(words@),
{
    let ghost start = out@;
    let mut i: usize = 0;
    assert(words@.subrange(0, 0) =~= Seq::<i32>::empty());
    assert(out@ =~= start + words_bytes(words@.subrange(0, 0)));
    while i < words.len()
        invariant
            i <= words@.len(),
            out@ == start + words_bytes(words@.subrange(0, i as int)),
        decreases words@.len() - i,
    {
        push_u32(out, words[i] as u32);
        i += 1;
        proof {
            let done = words@.subrange(0, i as int);
            assert(done.drop_last() =~= words@.subrange(0, i - 1));
            assert(out@ =~= start + words_bytes(done));
        }
    }
    assert(words@.subrange(0, i as int) =~= words@);
}

fn push_cells(out: &mut Vec<u8>, cells: &Vec<(i32, i32)>)
    ensures
        final(out)@ == old(out)@ + cells_bytes(cells@),
{
    let ghost start = out@;
    let mut c: usize = 0;
    assert(cells@.subrange(0, 0) =~= Seq::<(i32, i32)>::empty());
    assert(out@ =~= start + cells_bytes(cells@.subrange(0, 0)));
    while c < cells.len()
        invariant
            c <= cells@.len(),
            out@ == start + cells_bytes(cells@.subrange(0, c as int)),
        decreases cells@.len() - c,
    {
        push_u32(out, cells[c].0 as u32);
        push_u32(out, cells[c].1 as u32);
        c += 1;
        proof {
            let done = cells@.subrange(0, c as int);
            assert(done.drop_last() =~= cells@.subrange(0, c - 1));
            assert(out@ =~= start + cells_bytes(done));
        }
    }
    assert(cells@.subrange(0, c as int) =~= cells@);
}

fn push_texts(out: &mut Vec<u8>, table: &StringTable, count: usize)
    requires
        count == table.entries().len(),
    ensures
        final(out)@ == old(out)@ + texts_bytes(table.entries()),
{
    let ghost texts = table.entries();
    let ghost start = out@;
    let mut t: usize = 0;
    assert(texts.subrange(0, 0) =~= Seq::<(Seq<char>, Seq<char>)>::empty());
    assert(out@ =~= start + texts_bytes(texts.subrange(0, 0)));
    while t < count
        invariant
            t <= count == texts.len(),
            texts == table.entries(),
            out@ == start + texts_bytes(texts.subrange(0, t as int)),
        decreases count - t,
    {
        let (name, value) = table.entry(t);
        push_text(out, name);
        push_text(out, value);
        t += 1;
        proof {
            let done = texts.subrange(0, t as int);
            assert(done.drop_last() =~= texts.subrange(0, t - 1));
            assert(out@ =~= start + texts_bytes(done));
        }
    }
    assert(texts.subrange(0, t as int) =~= texts);
}

/// `String::from_utf8`: the string that the bytes encode, or nothing if they
/// are not valid UTF-8.
#[verifier::external_body]
fn text_from_utf8(bytes: Vec<u8>) -> (r: Option<String>)
    ensures
        match r {
            Some(s) => valid_utf8(bytes@) && s@ == decode_utf8(bytes@),
            None => !valid_utf8(bytes@),
        },
{
    String::from_utf8(bytes).ok()
}

fn next_u32(blob: &[u8], p: usize) -> (r: Option<u32>)
    requires
        p <= blob@.len(),
    ensures
        match r {
            Some(v) => p + 4 <= blob@.len() && take_u32(rest_of(blob@, p as int)) == Some(
                (v, rest_of(blob@, p + 4)),
            ),
            None => take_u32(rest_of(blob@, p as int)) is None,
        },
{
    if blob.len() - p < 4 {
        return None;
    }
    let v: u32 = blob[p] as u32 + 256 * (blob[p + 1] as u32) + 65536 * (blob[p + 2] as u32)
        + 16777216 * (blob[p + 3] as u32);
    proof {
        reveal(from_le);
        let b = rest_of(blob@, p as int);
        assert(b.subrange(4, b.len() as int) =~= rest_of(blob@, p + 4));
    }
    Some(v)
}

/// The bytes from position `p` on.
pub open spec fn rest_of(blob: Seq<u8>, p: int) -> Seq<u8> {
    blob.subrange(p, blob.len() as int)
}

fn next_run(blob: &[u8], p: usize) -> (r: Option<Vec<u8>>)
    requires
        p <= blob@.len(),
    ensures
        match r {
            Some(v) => p + 4 + v@.len() <= blob@.len() && take_run(rest_of(blob@, p as int))
                == Some((v@, rest_of(blob@, p + 4 + v@.len()))),
            None => take_run(rest_of(blob@, p as int)) is None,
        },
{
    let n: u32 = match next_u32(blob, p) {
        Some(n) => n,
        None => {
            return None;
        },
    };
    let total: usize = blob.len();
    let q: usize = p + 4;
    let ghost b = rest_of(blob@, q as int);
    if total - q < n as usize {
        return None;
    }
    let mut out: Vec<u8> = Vec::new();
    push_bytes(&mut out, vstd::slice::slice_subrange(blob, q, q + n as usize));
    assert(out@ =~= b.subrange(0, n as int));
    assert(b.subrange(n as int, b.len() as int) =~= rest_of(blob@, q + n));
    Some(out)
}

impl State {
    /// A snapshot of the runtime part of the state.
    pub fn snapshot(&self) -> (r: Vec<u8>)
        requires
            self.wf(),
        ensures
            r@ == self@.snapshot_bytes(),
            fx::lists(tables::sorted_cells(self@.extended), self@.extended),
            fx::lists(tables::sorted_texts(self@.strings), self@.strings),
    {
        let mut out: Vec<u8> = Vec::new();
        out.push(0x43);
        out.push(0x53);
        out.push(0x4E);
        out.push(0x50);
        assert(out@ =~= magic());
        push_u32(&mut out, SNAPSHOT_VERSION);
        push_u32(&mut out, self.state_vars.len() as u32);
        push_words(&mut out, &self.state_vars);
        push_u32(&mut out, self.memory.len() as u32);
        push_bytes(&mut out, self.memory.as_slice());
        let listed: Vec<(i32, i32)> = fx::cell_entries(&self.extended);
        let cells: Vec<(i32, i32)> = tables::sort_cells(&listed, Ghost(self.extended@));
        push_u32(&mut out, cells.len() as u32);
        push_cells(&mut out, &cells);
        let count: usize = self.string_properties.len();
        let ghost texts = self.string_properties.entries();
        push_u32(&mut out, count as u32);
        push_texts(&mut out, &self.string_properties, count);
        push_u32(&mut out, self.frame_counter);
        proof {
            lemma_regroup(
                magic(),
                le_bytes(SNAPSHOT_VERSION),
                le_bytes(self@.vars.len() as u32),
                words_bytes(self@.vars),
                le_bytes(self@.memory.len() as u32),
                self@.memory,
                le_bytes(cells@.len() as u32),
                cells_bytes(cells@),
                le_bytes(texts.len() as u32),
                texts_bytes(texts),
                le_bytes(self@.frame),
            );
            assert(out@ == self@.encoded(cells@, texts));
        }
        out
    }
}

/// Does a position, or an error, say where a reading of `blob` stands?
pub open spec fn stands_at(
    r: Result<usize, &'static str>,
    blob: Seq<u8>,
    rest: Result<Seq<u8>, Seq<char>>,
) -> bool {
    match r {
        Ok(p) => p <= blob.len() && rest == Ok::<Seq<u8>, Seq<char>>(rest_of(blob, p as int)),
        Err(e) => rest == Err::<Seq<u8>, Seq<char>>(e@),
    }
}

impl State {
    fn restore_vars(&mut self, blob: &[u8], start: usize) -> (r: Result<usize, &'static str>)
        requires
            old(self).wf(),
            start <= blob@.len(),
        ensures
            final(self).wf(),
            final(self)@ == read_vars(old(self)@, rest_of(blob@, start as int), 0).state,
            stands_at(r, blob@, read_vars(old(self)@, rest_of(blob@, start as int), 0).rest),
    {
        let ghost goal = read_vars(self@, rest_of(blob@, start as int), 0);
        let total: usize = blob.len();
        let mut p: usize = start;
        let mut slot: usize = 0;
        while slot < self.state_vars.len()
            invariant
                slot <= self.state_vars@.len(),
                p <= blob@.len() == total,
                self.wf(),
                goal == read_vars(old(self)@, rest_of(blob@, start as int), 0),
                read_vars(self@, rest_of(blob@, p as int), slot as int) == goal,
            decreases self.state_vars@.len() - slot,
        {
            let v: u32 = match next_u32(blob, p) {
                Some(v) => v,
                None => {
                    return Err("snapshot truncated");
                },
            };
            self.state_vars.set(slot, v as i32);
            p = p + 4;
            slot += 1;
        }
        Ok(p)
    }

    fn restore_cells(&mut self, blob: &[u8], start: usize, count: u32) -> (r: Result<
        usize,
        &'static str,
    >)
        requires
            old(self).wf(),
            start <= blob@.len(),
        ensures
            final(self).wf(),
            final(self)@ == read_cells(
                old(self)@,
                rest_of(blob@, start as int),
                count as int,
            ).state,
            stands_at(
                r,
                blob@,
                read_cells(old(self)@, rest_of(blob@, start as int), count as int).rest,
            ),
    {
        let ghost goal = read_cells(self@, rest_of(blob@, start as int), count as int);
        let total: usize = blob.len();
        let mut p: usize = start;
        let mut n: u32 = 0;
        while n < count
            invariant
                n <= count,
                p <= blob@.len() == total,
                self.wf(),
                goal == read_cells(old(self)@, rest_of(blob@, start as int), count as int),
                read_cells(self@, rest_of(blob@, p as int), count - n) == goal,
            decreases count - n,
        {
            let addr: u32 = match next_u32(blob, p) {
                Some(v) => v,
                None => {
                    return Err("snapshot truncated");
                },
            };
            let value: u32 = match next_u32(blob, p + 4) {
                Some(v) => v,
                None => {
                    return Err("snapshot truncated");
                },
            };
            fx::cell_insert(&mut self.extended, addr as i32, value as i32);
            p = p + 8;
            n += 1;
        }
        Ok(p)
    }

    fn restore_texts(&mut self, blob: &[u8], start: usize, count: u32) -> (r: Result<
        usize,
        &'static str,
    >)
        requires
            old(self).wf(),
            start <= blob@.len(),
        ensures
            final(self).wf(),
            final(self)@ == read_texts(
                old(self)@,
                rest_of(blob@, start as int),
                count as int,
            ).state,
            stands_at(
                r,
                blob@,
                read_texts(old(self)@, rest_of(blob@, start as int), count as int).rest,
            ),
    {
        let ghost goal = read_texts(self@, rest_of(blob@, start as int), count as int);
        let total: usize = blob.len();
        let mut p: usize = start;
        let mut n: u32 = 0;
        while n < count
            invariant
                n <= count,
                p <= blob@.len() == total,
                self.wf(),
                goal == read_texts(old(self)@, rest_of(blob@, start as int), count as int),
                read_texts(self@, rest_of(blob@, p as int), count - n) == goal,
            decreases count - n,
        {
            let name: Vec<u8> = match next_run(blob, p) {
                Some(v) => v,
                None => {
                    return Err("snapshot truncated");
                },
            };
            let q: usize = p + 4 + name.len();
            let value: Vec<u8> = match next_run(blob, q) {
                Some(v) => v,
                None => {
                    return Err("snapshot truncated");
                },
            };
            let after: usize = q + 4 + value.len();
            let name: String = match text_from_utf8(name) {
                Some(s) => s,
                None => {
                    return Err("snapshot: bad utf-8 in name");
                },
            };
            let value: String = match text_from_utf8(value) {
                Some(s) => s,
                None => {
                    return Err("snapshot: bad utf-8 in value");
                },
            };
            self.string_properties.insert(name, value);
            p = after;
            n += 1;
        }
        Ok(p)
    }

    /// Restores a snapshot. The state must have as many variables and as much
    /// memory as the one that was saved. An error leaves in place what was read
    /// before it.
    pub fn restore(&mut self, blob: &[u8]) -> (r: Result<(), &'static str>)
        requires
            old(self).wf(),
        ensures
            final(self).wf(),
            final(self)@ == read_snapshot(old(self)@, blob@).state,
            match r {
                Ok(()) => read_snapshot(old(self)@, blob@).rest is Ok,
                Err(e) => read_snapshot(old(self)@, blob@).rest == Err::<Seq<u8>, Seq<char>>(e@),
            },
    {
        let total: usize = blob.len();
        if total < 4 {
            return Err("snapshot truncated");
        }
        assert(blob@.subrange(0, 4) =~= seq![blob@[0], blob@[1], blob@[2], blob@[3]]);
        if !(blob[0] == 0x43 && blob[1] == 0x53 && blob[2] == 0x4E && blob[3] == 0x50) {
            proof {
                let head = blob@.subrange(0, 4);
                if head == magic() {
                    assert(head[0] == 0x43 && head[1] == 0x53 && head[2] == 0x4E && head[3]
                        == 0x50);
                }
            }
            return Err("snapshot: bad magic (expected CSNP)");
        }
        assert(blob@.subrange(0, 4) =~= magic());
        let version: u32 = match next_u32(blob, 4) {
            Some(v) => v,
            None => {
                return Err("snapshot truncated");
            },
        };
        if version != SNAPSHOT_VERSION {
            return Err("snapshot: unsupported version");
        }
        let var_count: u32 = match next_u32(blob, 8) {
            Some(v) => v,
            None => {
                return Err("snapshot truncated");
            },
        };
        if var_count as usize != self.state_vars.len() {
            return Err("snapshot: state_vars length mismatch (different cabinet?)");
        }
        let p: usize = match self.restore_vars(blob, 12) {
            Ok(p) => p,
            Err(e) => {
                return Err(e);
            },
        };
        let size: u32 = match next_u32(blob, p) {
            Some(v) => v,
            None => {
                return Err("snapshot truncated");
            },
        };
        if size as usize != self.memory.len() {
            return Err("snapshot: memory length mismatch (different cabinet?)");
        }
        let p: usize = p + 4;
        if total - p < size as usize {
            return Err("snapshot truncated");
        }
        let mut memory: Vec<u8> = Vec::new();
        push_bytes(&mut memory, vstd::slice::slice_subrange(blob, p, p + size as usize));
        proof {
            let b = rest_of(blob@, p as int);
            assert(memory@ =~= b.subrange(0, size as int));
            assert(b.subrange(size as int, b.len() as int) =~= rest_of(blob@, p + size));
        }
        self.memory = memory;
        let p: usize = p + size as usize;
        let cell_count: u32 = match next_u32(blob, p) {
            Some(v) => v,
            None => {
                return Err("snapshot truncated");
            },
        };
        self.extended.clear();
        let p: usize = match self.restore_cells(blob, p + 4, cell_count) {
            Ok(p) => p,
            Err(e) => {
                return Err(e);
            },
        };
        let text_count: u32 = match next_u32(blob, p) {
            Some(v) => v,
            None => {
                return Err("snapshot truncated");
            },
        };
        self.string_properties.clear();
        let p: usize = match self.restore_texts(blob, p + 4, text_count) {
            Ok(p) => p,
            Err(e) => {
                return Err(e);
            },
        };
        self.frame_counter = match next_u32(blob, p) {
            Some(v) => v,
            None => {
                return Err("snapshot truncated");
            },
        };
        Ok(())
    }
}

} // verus!

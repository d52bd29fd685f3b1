//! What the keyboard ring buffer holds, and what the keyed window shows.

use crate::state;
use crate::state::{StateModel, EXTENDED_BASE};
use vstd::prelude::*;

verus! {

// ---------------------------------------------------------------------------
// The keyboard ring buffer
// ---------------------------------------------------------------------------

/// The little-endian word of two bytes of memory.
pub open spec fn word_at(memory: Seq<u8>, addr: int) -> int {
    memory[addr] + 256 * memory[addr + 1]
}

/// Where the tail goes from `tail` in a buffer of the given bounds.
pub open spec fn tail_after(tail: int, start: int, end: int) -> int {
    if tail + 2 >= end {
        start
    } else {
        tail + 2
    }
}

proof fn lemma_read_word(m: StateModel, addr: i32)
    requires
        m.plain(),
        0 <= addr,
        addr + 1 < m.memory.len(),
        addr + 1 < EXTENDED_BASE,
    ensures
        m.read16(addr) == word_at(m.memory, addr as int),
        m.after_read16(addr).memory == m.memory,
        m.after_read16(addr).plain(),
{
    assert(m.packed(addr as int) is None);
    assert(m.packed(addr + 1) is None);
    assert(m.packed_word(addr) is None);
}

proof fn lemma_write_byte(m: StateModel, addr: i32, value: i32)
    requires
        m.plain(),
        0 <= addr < m.memory.len(),
        addr < EXTENDED_BASE,
    ensures
        m.write(addr, value).memory == m.memory.update(addr as int, state::low_byte(value)),
        m.write(addr, value).plain(),
{
    assert(m.packed(addr as int) is None);
}

proof fn lemma_two_bytes(value: i32)
    ensures
        state::low_byte(value & 0xFF) == value as int % 256,
        state::low_byte((value >> 8u32) & 0xFF) == (value as int / 256) % 256,
{
    assert(((value & 0xFF) & 0xFF) as u8 == value % 256) by (bit_vector);
    assert((((value >> 8u32) & 0xFF) & 0xFF) as u8 == (value / 256) % 256) by (bit_vector);
}

/// A key is stored as two bytes, the low one first, where the tail of the buffer
/// pointed. The tail moves on by one entry, at the end of the buffer back to its start,
/// unless it would meet the head. No other byte changes.
pub proof fn law_key_goes_to_the_tail(m: StateModel, key: i32, addr: int)
    requires
        m.plain(),
        0x484 <= m.memory.len(),
        0x402 + word_at(m.memory, 0x41C) <= m.memory.len(),
        // The entry lies clear of the head and the tail.
        0x401 + word_at(m.memory, 0x41C) < 0x41A || 0x400 + word_at(m.memory, 0x41C) > 0x41D,
        0 <= addr < m.memory.len(),
    ensures
        ({
            let tail = word_at(m.memory, 0x41C);
            let next = tail_after(tail, word_at(m.memory, 0x480), word_at(m.memory, 0x482));
            let after = m.with_key(key).memory;
            &&& after.len() == m.memory.len()
            &&& after[0x400 + tail] == key as int % 256
            &&& after[0x401 + tail] == (key as int / 256) % 256
            &&& word_at(after, 0x41C) == if next == word_at(m.memory, 0x41A) {
                tail
            } else {
                next
            }
            &&& addr != 0x400 + tail && addr != 0x401 + tail && addr != 0x41C && addr != 0x41D
                ==> after[addr] == m.memory[addr]
        }),
{
    let tail = m.read16(0x41C);
    let a = m.after_read16(0x41C);
    lemma_read_word(m, 0x41C);
    lemma_read_word(a, 0x482);
    let b = a.after_read16(0x482);
    lemma_read_word(b, 0x480);
    let c = b.after_read16(0x480);
    let linear = (tail + 0x400) as i32;
    assert(tail.wrapping_add(0x400) == linear);
    assert(linear.wrapping_add(1) == linear + 1);
    let c1 = c.write(linear, key & 0xFF);
    lemma_write_byte(c, linear, key & 0xFF);
    lemma_write_byte(c1, (linear + 1) as i32, (key >> 8u32) & 0xFF);
    lemma_two_bytes(key);
    let d = c1.write(linear.wrapping_add(1), (key >> 8u32) & 0xFF);
    assert(tail.wrapping_add(2) == tail + 2);
    lemma_read_word(d, 0x41A);
    let e = d.after_read16(0x41A);
    let next = tail_after(
        tail as int,
        word_at(m.memory, 0x480),
        word_at(m.memory, 0x482),
    ) as i32;
    assert(word_at(d.memory, 0x41A) == word_at(m.memory, 0x41A));
    lemma_two_bytes(next);
    let f = e.write(0x41C, next & 0xFF);
    lemma_write_byte(e, 0x41C, next & 0xFF);
    lemma_write_byte(f, 0x41D, (next >> 8u32) & 0xFF);
}

// ---------------------------------------------------------------------------
// The keyed window
// ---------------------------------------------------------------------------

/// A read in the window shows the byte of the window's array that lies as far behind
/// the start of the key's row as the address lies behind the start of the window, and 0
/// where the array has none.
pub proof fn law_window_shows_its_row(m: StateModel, addr: i32)
    requires
        addr >= 0,
        m.packed(addr as int) is None,
        m.window is Some,
        m.window->0.has(addr as int),
        0 <= m.window->0.key_slot < m.vars.len(),
        0 <= m.window->0.base,
        i32::MIN <= m.vars[m.window->0.key_slot] * m.window->0.stride <= i32::MAX,
        i32::MIN <= m.vars[m.window->0.key_slot] * m.window->0.stride + (addr - m.window->0.base)
            <= i32::MAX,
        i32::MIN <= m.vars[m.window->0.key_slot] * m.window->0.stride + (addr - m.window->0.base)
            - m.window->0.base_key <= i32::MAX,
    ensures
        ({
            let w = m.window->0;
            let row = m.vars[w.key_slot] * w.stride - w.base_key;
            let at = row + (addr - w.base);
            &&& 0 <= at < w.bytes.len() ==> m.read(addr) == w.bytes[at]
            &&& !(0 <= at < w.bytes.len()) ==> m.read(addr) == 0
        }),
{
}

/// With the next key the window shows what lies one stride further.
pub proof fn law_window_moves_with_its_key(w: state::WindowModel, key: i32, a: i32, b: i32)
    requires
        w.has(a as int),
        w.has(b as int),
        0 <= w.base,
        0 <= key < i32::MAX,
        0 <= w.stride,
        0 <= w.base_key,
        (key + 1) * w.stride + (w.end - w.base) <= i32::MAX,
        a == b + w.stride,
    ensures
        w.byte_at((key + 1) as i32, b) == w.byte_at(key, a),
{
    assert((key + 1) * w.stride == key * w.stride + w.stride) by (nonlinear_arith);
    assert(key * w.stride >= 0) by (nonlinear_arith)
        requires
            key >= 0,
            w.stride >= 0,
    ;
}

} // verus!

//! The flat byte memory: 32-bit words (least significant byte first) and bytes.
use vstd::prelude::*;

use crate::util::le_bytes;

verus! {

/// The word stored at `a..a + 4`, least significant byte first.
pub open spec fn read_word(mem: Seq<u8>, a: int) -> u32 {
    (mem[a] as u32) | ((mem[a + 1] as u32) << 8u32) | ((mem[a + 2] as u32) << 16u32) | ((
    mem[a + 3] as u32) << 24u32)
}

/// `mem` with the word `v` stored at `a..a + 4`.
pub open spec fn write_word(mem: Seq<u8>, a: int, v: u32) -> Seq<u8> {
    let b = le_bytes(v);
    mem.update(a, b[0]).update(a + 1, b[1]).update(a + 2, b[2]).update(a + 3, b[3])
}

/// The byte stored for the value `v`: its low eight bits.
pub open spec fn low_byte(v: u32) -> u8 {
    (v & 0xff) as u8
}

/// Whether a word at `a` lies inside memory of `len` bytes.
pub open spec fn word_in_bounds(len: nat, a: int) -> bool {
    0 <= a && a + 4 <= len
}

/// Writing a word and reading it back at the same address gives the word.
pub proof fn lemma_word_round_trip(mem: Seq<u8>, a: int, v: u32)
    requires
        word_in_bounds(mem.len(), a),
    ensures
        write_word(mem, a, v).len() == mem.len(),
        read_word(write_word(mem, a, v), a) == v,
{
    let w = write_word(mem, a, v);
    assert(w[a] == (v & 0xff) as u8);
    assert(w[a + 1] == ((v >> 8u32) & 0xff) as u8);
    assert(w[a + 2] == ((v >> 16u32) & 0xff) as u8);
    assert(w[a + 3] == ((v >> 24u32) & 0xff) as u8);
    assert((((v & 0xff) as u8) as u32) | ((((v >> 8u32) & 0xff) as u8 as u32) << 8u32) | ((((v
        >> 16u32) & 0xff) as u8 as u32) << 16u32) | ((((v >> 24u32) & 0xff) as u8 as u32)
        << 24u32) == v) by (bit_vector);
}

/// Writing a byte and reading it back at the same address gives the value's low eight bits.
pub proof fn lemma_byte_round_trip(mem: Seq<u8>, a: int, v: u32)
    requires
        0 <= a < mem.len(),
    ensures
        mem.update(a, low_byte(v)).len() == mem.len(),
        mem.update(a, low_byte(v))[a] as u32 == v % 256,
{
    assert(((v & 0xff) as u8) as u32 == v % 256) by (bit_vector);
}

/// The word at `a`.
pub fn load_word(mem: &Vec<u8>, a: usize) -> (r: u32)
    requires
        word_in_bounds(mem@.len(), a as int),
    ensures
        r == read_word(mem@, a as int),
{
    let len = mem.len();
    assert(a + 4 <= len);
    (mem[a] as u32) | ((mem[a + 1] as u32) << 8u32) | ((mem[a + 2] as u32) << 16u32) | ((mem[a
        + 3] as u32) << 24u32)
}

/// Stores the word `v` at `a`.
pub fn store_word(mem: &mut Vec<u8>, a: usize, v: u32)
    requires
        word_in_bounds(old(mem)@.len(), a as int),
    ensures
        final(mem)@ == write_word(old(mem)@, a as int, v),
{
    let len = mem.len();
    assert(a + 4 <= len);
    mem.set(a, (v & 0xff) as u8);
    mem.set(a + 1, ((v >> 8u32) & 0xff) as u8);
    mem.set(a + 2, ((v >> 16u32) & 0xff) as u8);
    mem.set(a + 3, ((v >> 24u32) & 0xff) as u8);
    assert(final(mem)@ =~= write_word(old(mem)@, a as int, v));
}

} // verus!

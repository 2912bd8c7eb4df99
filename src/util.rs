use vstd::prelude::*;

verus! {

/// The four bytes of `n`, least significant first.
pub open spec fn le_bytes(n: u32) -> Seq<u8> {
    seq![
        (n & 0xff) as u8,
        ((n >> 8u32) & 0xff) as u8,
        ((n >> 16u32) & 0xff) as u8,
        ((n >> 24u32) & 0xff) as u8,
    ]
}

/// Appends `n` to `vec` in little-endian byte order.
pub fn append_u32(vec: &mut Vec<u8>, n: u32)
    ensures
        final(vec)@ == old(vec)@ + le_bytes(n),
{
    vec.push((n & 0xff) as u8);
    vec.push(((n >> 8u32) & 0xff) as u8);
    vec.push(((n >> 16u32) & 0xff) as u8);
    vec.push(((n >> 24u32) & 0xff) as u8);
    assert(final(vec)@ =~= old(vec)@ + le_bytes(n));
}

} // verus!

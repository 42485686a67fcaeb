//! The stable hue under which a profile's name is drawn.
use vstd::prelude::*;

verus! {

/// The multiplicative hash of a name's bytes: `h * 31 + byte`, wrapping at 32 bits.
pub open spec fn name_hash(bytes: Seq<u8>) -> u32
    decreases bytes.len(),
{
    if bytes.len() == 0 {
        0
    } else {
        vstd::wrapping::u32_specs::wrapping_add(
            vstd::wrapping::u32_specs::wrapping_mul(name_hash(bytes.drop_last()), 31),
            bytes.last() as u32,
        )
    }
}

/// The hue, in degrees, that a name is drawn in: its hash modulo 360.
pub fn name_hue(name: &str) -> (r: u32)
    ensures
        r == name_hash(vstd::utf8::encode_utf8(name@)) % 360,
        r < 360,
{
    let bytes = name.as_bytes();
    let mut h: u32 = 0;
    let mut i: usize = 0;
    while i < bytes.len()
        invariant
            i <= bytes@.len(),
            bytes@ == vstd::utf8::encode_utf8(name@),
            h == name_hash(bytes@.take(i as int)),
        decreases bytes@.len() - i,
    {
        assert(bytes@.take(i + 1).drop_last() =~= bytes@.take(i as int));
        h = h.wrapping_mul(31).wrapping_add(bytes[i] as u32);
        i += 1;
    }
    assert(bytes@.take(i as int) =~= bytes@);
    h % 360
}

} // verus!

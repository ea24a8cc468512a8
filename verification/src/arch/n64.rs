use vstd::prelude::*;

verus! {

/// The image with the two bytes of every 16-bit unit exchanged.
pub open spec fn pair_swapped(bytes: Seq<u8>) -> Seq<u8> {
    Seq::new(
        bytes.len(),
        |i: int|
            if i % 2 == 0 {
                bytes[i + 1]
            } else {
                bytes[i - 1]
            },
    )
}

/// Converts a byte-swapped cartridge dump to the native big-endian layout by
/// exchanging the bytes of every 16-bit unit.
pub fn n64_to_z64(bytes: &[u8]) -> (out: Vec<u8>)
    requires
        bytes@.len() % 2 == 0,
    ensures
        out@ == pair_swapped(bytes@),
{
    let mut out: Vec<u8> = Vec::with_capacity(bytes.len());
    let mut i: usize = 0;
    while i < bytes.len()
        invariant
            bytes@.len() % 2 == 0,
            i % 2 == 0,
            i <= bytes@.len(),
            out@.len() == i,
            forall|k: int| 0 <= k < i ==> out@[k] == #[trigger] pair_swapped(bytes@)[k],
        decreases bytes@.len() - i,
    {
        out.push(bytes[i + 1]);
        out.push(bytes[i]);
        i += 2;
    }
    assert(out@ =~= pair_swapped(bytes@));
    out
}

} // verus!

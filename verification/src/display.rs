//! Pixel layout of the waterfall display.
use vstd::prelude::*;

verus! {

/// The display surface holds four bytes per pixel; the second byte of each
/// pixel is its green channel.
pub open spec fn green_index(i: int) -> int {
    4 * i + 1
}

/// Writes one intensity per pixel into the green channel of a 4-byte-per-pixel
/// surface, starting at the first pixel; every other byte keeps its value.
pub fn write_green_channel(pixels: &mut Vec<u8>, levels: &Vec<u8>)
    requires
        levels.len() == 0 || green_index(levels.len() - 1) < old(pixels).len(),
    ensures
        final(pixels).len() == old(pixels).len(),
        forall|k: int|
            0 <= k < old(pixels).len() ==> #[trigger] final(pixels)@[k] == (if k % 4 == 1 && k / 4 < levels.len() {
                levels@[k / 4]
            } else {
                old(pixels)@[k]
            }),
{
    let mut i: usize = 0;
    while i < levels.len()
        invariant
            i <= levels.len(),
            levels.len() == 0 || green_index(levels.len() - 1) < old(pixels).len(),
            pixels.len() == old(pixels).len(),
            forall|k: int|
                0 <= k < old(pixels).len() ==> #[trigger] pixels@[k] == (if k % 4 == 1 && k / 4 < i {
                    levels@[k / 4]
                } else {
                    old(pixels)@[k]
                }),
        decreases levels.len() - i,
    {
        let p = 4 * i + 1;
        pixels.set(p, levels[i]);
        i = i + 1;
        assert forall|k: int| 0 <= k < old(pixels).len() implies #[trigger] pixels@[k] == (if k % 4 == 1 && k / 4 < i {
            levels@[k / 4]
        } else {
            old(pixels)@[k]
        }) by {
            if k == p {
                assert(k % 4 == 1 && k / 4 == i - 1);
            } else {
                assert(!(k % 4 == 1 && k / 4 == i - 1));
            }
        }
    }
}

} // verus!

//! Pixels of a decoded image and the samples they are read into.

use vstd::prelude::*;

verus! {

/// One pixel: its red, green and blue channels.
#[derive(Debug, Clone, Copy, PartialEq, Eq, Structural)]
pub struct Rgb {
    pub r: u8,
    pub g: u8,
    pub b: u8,
}

/// The samples of `pixels`: each pixel's red, green and blue channels, one
/// pixel after the other.
pub open spec fn channel_samples(pixels: Seq<Rgb>) -> Seq<u8> {
    Seq::new(
        3 * pixels.len(),
        |k: int|
            if k % 3 == 0 {
                pixels[k / 3].r
            } else if k % 3 == 1 {
                pixels[k / 3].g
            } else {
                pixels[k / 3].b
            },
    )
}

/// Reads `pixels`, in their order, into samples, three to a pixel.
pub fn samples_of(pixels: &Vec<Rgb>) -> (r: Vec<u8>)
    requires
        3 * pixels@.len() <= usize::MAX,
    ensures
        r@ == channel_samples(pixels@),
{
    let mut out: Vec<u8> = Vec::new();
    let mut i: usize = 0;
    while i < pixels.len()
        invariant
            0 <= i <= pixels@.len(),
            3 * pixels@.len() <= usize::MAX,
            out@ =~= channel_samples(pixels@.take(i as int)),
        decreases pixels@.len() - i,
    {
        let p: Rgb = pixels[i];
        out.push(p.r);
        out.push(p.g);
        out.push(p.b);
        proof {
            let ii = i as int;
            let next = channel_samples(pixels@.take(ii + 1));
            assert forall|k: int| 0 <= k < 3 * ii + 3 implies #[trigger] next[k] == out@[k] by {
                if k < 3 * ii {
                    assert(k / 3 < ii);
                } else {
                    assert(k / 3 == ii);
                }
            }
            assert(out@ =~= next);
        }
        i = i + 1;
    }
    proof {
        assert(pixels@.take(pixels@.len() as int) =~= pixels@);
    }
    out
}

} // verus!

use vstd::prelude::*;
use crate::image::Image;

verus! {

/// A colour as three bytes, ready for a display.
#[derive(Debug, Clone, Copy)]
pub struct SRgbColor {
    pub r: u8,
    pub g: u8,
    pub b: u8,
}

/// The channel `c` (0 red, 1 green, 2 blue) of a colour.
pub open spec fn channel(p: SRgbColor, c: int) -> u8 {
    if c == 0 {
        p.r
    } else if c == 1 {
        p.g
    } else {
        p.b
    }
}

/// The bytes of an image: red, green and blue of each pixel, pixel after
/// pixel.
pub open spec fn bytes_of(pixels: Seq<SRgbColor>) -> Seq<u8> {
    Seq::new(3 * pixels.len(), |i: int| channel(pixels[i / 3], i % 3))
}

/// The bytes of an image, three for each pixel, as a display takes them.
pub fn srgb_data(image: &Image<SRgbColor>) -> (data: Vec<u8>)
    requires
        image.wf(),
        3 * image.cells().len() <= usize::MAX,
    ensures
        data@ == bytes_of(image.cells()),
{
    let pixels = image.pixels();
    let mut data: Vec<u8> = Vec::new();
    let mut i: usize = 0;
    while i < pixels.len()
        invariant
            i <= pixels.len(),
            3 * pixels.len() <= usize::MAX,
            data@ == bytes_of(pixels@.take(i as int)),
        decreases pixels.len() - i,
    {
        let rgb = pixels[i];
        data.push(rgb.r);
        data.push(rgb.g);
        data.push(rgb.b);
        proof {
            let before = bytes_of(pixels@.take(i as int));
            let after = bytes_of(pixels@.take(i + 1));
            assert(data@.len() == after.len());
            assert forall|k: int| 0 <= k < after.len() implies data@[k] == after[k] by {
                if k < 3 * i {
                    assert(data@[k] == before[k]);
                    assert(pixels@.take(i as int)[k / 3] == pixels@.take(i + 1)[k / 3]);
                } else {
                    assert(k / 3 == i);
                    assert(pixels@.take(i + 1)[k / 3] == rgb);
                }
            }
            assert(data@ =~= after);
        }
        i += 1;
    }
    assert(pixels@.take(i as int) =~= pixels@);
    data
}

} // verus!

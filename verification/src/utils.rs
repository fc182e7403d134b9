//! Small conversions.

use vstd::prelude::*;

verus! {

/// The red, green and blue bytes of a color `0x00RRGGBB`, lowest byte first
/// (its little-endian bytes, without the top one).
pub fn color_to_rgb(color: u32) -> (rgb: [u8; 3])
    ensures
        rgb@ == seq![(color % 256) as u8, (color / 256 % 256) as u8, (color / 65536 % 256) as u8],
{
    let rgb = [(color % 256) as u8, (color / 256 % 256) as u8, (color / 65536 % 256) as u8];
    proof {
        assert(rgb@ =~= seq![
            (color % 256) as u8,
            (color / 256 % 256) as u8,
            (color / 65536 % 256) as u8,
        ]);
    }
    rgb
}

} // verus!

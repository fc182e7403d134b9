//! A palette image built from pixel colors: each pixel takes the color last
//! given to it, and pixels never given one stay white.

use vstd::prelude::*;
use crate::sorted_map::SortedMap;

verus! {

/// An image: its width, and for each miner the (pixel index, RGB) it paints.
pub struct Glyph {
    pub width: u32,
    pub colors: SortedMap<u32, Vec<(u32, [u8; 3])>>,
}

/// The contract that turns a glyph into its palette.
pub struct GlyphContract;

/// `n` white bytes.
pub open spec fn whites(n: int) -> Seq<u8> {
    Seq::new(n as nat, |i: int| 255u8)
}

/// Paints pixel `index` of the palette `p` (three bytes a pixel): beyond the
/// end, the palette grows with white pixels up to it; a pixel index whose
/// offset does not fit in a `u32` traps.
pub open spec fn paint_palette(p: Seq<u8>, index: u32, rgb: Seq<u8>) -> Option<Seq<u8>> {
    let t = index * 3;
    if t > u32::MAX {
        None
    } else if p.len() <= t {
        Some(p + whites(t - p.len()) + rgb)
    } else {
        Some(p.update(t, rgb[0]).update(t + 1, rgb[1]).update(t + 2, rgb[2]))
    }
}

pub open spec fn paint_pixels(p: Seq<u8>, pixels: Seq<(u32, [u8; 3])>) -> Option<Seq<u8>>
    decreases pixels.len(),
{
    if pixels.len() == 0 {
        Some(p)
    } else {
        match paint_pixels(p, pixels.drop_last()) {
            None => None,
            Some(p1) => paint_palette(p1, pixels.last().0, pixels.last().1@),
        }
    }
}

/// The palette of a glyph: the pixels of each miner in turn, miners in order.
pub open spec fn palette_of(miners: Seq<(u32, Seq<(u32, [u8; 3])>)>) -> Option<Seq<u8>>
    decreases miners.len(),
{
    if miners.len() == 0 {
        Some(Seq::empty())
    } else {
        match palette_of(miners.drop_last()) {
            None => None,
            Some(p) => paint_pixels(p, miners.last().1),
        }
    }
}

pub proof fn lemma_pixels_stuck(p: Seq<u8>, s: Seq<(u32, [u8; 3])>, i: int)
    requires
        0 <= i <= s.len(),
        paint_pixels(p, s.take(i)) is None,
    ensures
        paint_pixels(p, s) is None,
    decreases s.len() - i,
{
    if i < s.len() {
        assert(s.take(i + 1).drop_last() =~= s.take(i));
        lemma_pixels_stuck(p, s, i + 1);
    } else {
        assert(s.take(i) =~= s);
    }
}

pub proof fn lemma_palette_stuck(s: Seq<(u32, Seq<(u32, [u8; 3])>)>, i: int)
    requires
        0 <= i <= s.len(),
        palette_of(s.take(i)) is None,
    ensures
        palette_of(s) is None,
    decreases s.len() - i,
{
    if i < s.len() {
        assert(s.take(i + 1).drop_last() =~= s.take(i));
        lemma_palette_stuck(s, i + 1);
    } else {
        assert(s.take(i) =~= s);
    }
}

impl GlyphContract {
    /// The palette of `glyph`, or `None` where building it traps.
    pub fn mint(glyph: &Glyph) -> (palette: Option<Vec<u8>>)
        ensures
            match palette_of(glyph.colors@) {
                None => palette is None,
                Some(p) => palette is Some && palette->0@ == p,
            },
    {
        let ghost ms = glyph.colors@;
        let mut palette: Vec<u8> = Vec::new();
        let mut mi: usize = 0;
        while mi < glyph.colors.len()
            invariant
                ms == glyph.colors@,
                0 <= mi <= ms.len(),
                palette_of(ms.take(mi as int)) == Some(palette@),
                palette@.len() % 3 == 0,
            decreases ms.len() - mi,
        {
            let index_colors = glyph.colors.value_at(mi);
            let ghost p0 = palette@;
            proof {
                assert(ms.take(mi as int + 1).drop_last() =~= ms.take(mi as int));
            }
            let mut k: usize = 0;
            while k < index_colors.len()
                invariant
                    ms == glyph.colors@,
                    0 <= mi < ms.len(),
                    index_colors@ == ms[mi as int].1,
                    palette_of(ms.take(mi as int)) == Some(p0),
                    ms.take(mi as int + 1).drop_last() == ms.take(mi as int),
                    0 <= k <= index_colors@.len(),
                    paint_pixels(p0, index_colors@.take(k as int)) == Some(palette@),
                    palette@.len() % 3 == 0,
                decreases index_colors@.len() - k,
            {
                let (index, color) = index_colors[k];
                proof {
                    assert(index_colors@.take(k as int + 1).drop_last() =~= index_colors@.take(k as int));
                }
                let t = match index.checked_mul(3) {
                    Some(t) => t as usize,
                    None => {
                        proof {
                            lemma_pixels_stuck(p0, index_colors@, k as int + 1);
                            lemma_palette_stuck(ms, mi as int + 1);
                        }
                        return None;
                    },
                };
                if palette.len() <= t {
                    let ghost before = palette@;
                    while palette.len() < t
                        invariant
                            before.len() <= palette@.len() <= t,
                            palette@ == before + whites(palette@.len() - before.len()),
                        decreases t - palette@.len(),
                    {
                        palette.push(255u8);
                        proof {
                            assert(palette@ =~= before + whites(palette@.len() - before.len()));
                        }
                    }
                    palette.push(color[0]);
                    palette.push(color[1]);
                    palette.push(color[2]);
                    proof {
                        assert(palette@ =~= before + whites(t - before.len()) + color@);
                    }
                } else {
                    palette.set(t, color[0]);
                    palette.set(t + 1, color[1]);
                    palette.set(t + 2, color[2]);
                }
                k = k + 1;
            }
            proof {
                assert(index_colors@.take(k as int) =~= index_colors@);
            }
            mi = mi + 1;
        }
        proof {
            assert(ms.take(mi as int) =~= ms);
        }
        Some(palette)
    }
}

} // verus!

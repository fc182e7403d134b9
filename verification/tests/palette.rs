use colorglyph::palette::{Glyph, GlyphContract};
use colorglyph::sorted_map::SortedMap;

#[test]
fn test_test() {
    let mut b_palette: Vec<u8> = Vec::new();
    let mut v_palette: Vec<(u32, [u8; 3])> = Vec::new();

    for i in 0..255u8 {
        b_palette.push(i);
        b_palette.push(i);
        b_palette.push(i);

        v_palette.push((i as u32, [i, i, i]));
    }

    let mut colors: SortedMap<u32, Vec<(u32, [u8; 3])>> = SortedMap::new();
    colors.set(1, v_palette);

    let palette = GlyphContract::mint(&Glyph { width: 4, colors });

    assert_eq!(palette, Some(b_palette));
}

#[test]
fn unpainted_pixels_stay_white_and_later_colors_win() {
    let mut colors: SortedMap<u32, Vec<(u32, [u8; 3])>> = SortedMap::new();
    colors.set(1, vec![(2, [1, 2, 3]), (0, [4, 5, 6])]);
    colors.set(2, vec![(0, [7, 8, 9])]);
    let palette = GlyphContract::mint(&Glyph { width: 2, colors });
    assert_eq!(palette, Some(vec![7, 8, 9, 255, 255, 255, 1, 2, 3]));
}

#[test]
fn a_pixel_index_past_the_largest_offset_traps() {
    let mut colors: SortedMap<u32, Vec<(u32, [u8; 3])>> = SortedMap::new();
    colors.set(1, vec![(u32::MAX / 3 + 1, [0, 0, 0])]);
    assert_eq!(GlyphContract::mint(&Glyph { width: 1, colors }), None);
}

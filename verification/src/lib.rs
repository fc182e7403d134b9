//! A verified model of the ColorGlyph contract: colors mined by miners and
//! held by owners, glyphs minted from those colors, and an exchange of glyphs
//! for glyphs or for amounts of a token.

pub mod order;
pub mod types;
pub mod sorted_map;
pub mod storage;
pub mod contract;
pub mod glyphs;
pub mod offers;
pub mod utils;
pub mod palette;
pub mod laws;
pub mod trades;

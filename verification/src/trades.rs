//! The first counter-based glyph contract: each mint records the same
//! three-by-three glyph under the next count, owned and minted by the
//! invoker, with the invoker as the miner of its nine pixels.

use vstd::prelude::*;
use crate::glyphs::{sha256, sha256_digest};
use crate::sorted_map::SortedMap;
use crate::types::{Address, Hash32};

verus! {

/// A glyph of this contract: its width and its color bytes.
pub struct Glyph {
    pub width: u32,
    pub colors: Vec<u8>,
}

/// A color: its hex value, miner and owner, as numbers.
#[derive(Clone, Copy, Debug, PartialEq, Eq)]
pub struct Color(pub u32, pub u32, pub u32);

/// A color and its miner.
#[derive(Clone, Copy, Debug, PartialEq, Eq)]
pub struct ColorMap {
    pub miner: Address,
    pub color: Color,
}

/// What one mint records: the glyph, its owner, its minter, and for each
/// miner the number of pixels mined.
pub struct Minted {
    pub glyph: Glyph,
    pub owner: Address,
    pub minter: Address,
    pub miners: SortedMap<Address, u32>,
}

/// The contract and its storage: the count of glyphs minted, and by count
/// (from 1) what each mint recorded.
pub struct ColorGlyphContract {
    pub count: u128,
    pub minted: Vec<Minted>,
}

/// The color bytes of the glyph every mint records.
pub open spec fn minted_colors() -> Seq<u8> {
    seq![1u8, 0u8, 1u8, 0u8, 1u8, 0u8, 1u8, 0u8, 1u8]
}

/// `m` is what a mint by `invoker` records.
pub open spec fn minted_by(m: Minted, invoker: Address) -> bool {
    &&& m.glyph.width == 3
    &&& m.glyph.colors@ == minted_colors()
    &&& m.owner == invoker
    &&& m.minter == invoker
    &&& m.miners.wf()
    &&& m.miners.map() == map![invoker => 9u32]
}

impl ColorGlyphContract {
    /// One record for each count.
    pub open spec fn wf(&self) -> bool {
        self.count == self.minted@.len()
    }

    /// A contract that has minted nothing.
    pub fn new() -> (c: Self)
        ensures
            c.wf(),
            c.count == 0,
    {
        ColorGlyphContract { count: 0, minted: Vec::new() }
    }

    /// Mints the next glyph for `invoker` and gives the hash of its colors.
    pub fn mint(&mut self, env: &soroban_sdk::Env, invoker: Address) -> (h: Hash32)
        requires
            old(self).wf(),
        ensures
            final(self).wf(),
            final(self).count == old(self).count + 1,
            final(self).minted@.len() == old(self).minted@.len() + 1,
            forall|i: int| 0 <= i < old(self).minted@.len() ==> final(self).minted@[i] == old(self).minted@[i],
            minted_by(final(self).minted@.last(), invoker),
            h.0@ == sha256_digest(minted_colors()),
    {
        let minted_so_far = self.minted.len();
        proof {
            assert(self.count == minted_so_far);
        }
        let colors: Vec<u8> = vec![1, 0, 1, 0, 1, 0, 1, 0, 1];
        let h = sha256(env, colors.as_slice());
        let mut miners: SortedMap<Address, u32> = SortedMap::new();
        miners.set(invoker, 9);
        proof {
            assert(colors@ =~= minted_colors());
            assert(miners.map() =~= map![invoker => 9u32]);
        }
        self.minted.push(
            Minted { glyph: Glyph { width: 3, colors }, owner: invoker, minter: invoker, miners },
        );
        self.count = self.count + 1;
        h
    }

    /// The count of glyphs minted and the record of mint number `count`;
    /// nothing when no such mint was made.
    pub fn get(&self, count: u128) -> (r: Option<(u128, &Minted)>)
        requires
            self.wf(),
        ensures
            r is Some <==> 1 <= count <= self.count,
            match r {
                Some((n, m)) => n == self.count && *m == self.minted@[count - 1],
                None => true,
            },
    {
        if count == 0 || count > self.count {
            return None;
        }
        let n = self.minted.len();
        assert(count - 1 < n);
        let i = (count - 1) as usize;
        Some((self.count, &self.minted[i]))
    }
}

} // verus!

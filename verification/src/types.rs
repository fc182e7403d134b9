//! The values the contract stores and exchanges.

use vstd::prelude::*;
use crate::sorted_map::{Duplicate, SortedMap, keys_increase};
use crate::order::{Cmp, Ordered, bytes_precede, compare_bytes32, lemma_bytes_irreflexive,
    lemma_bytes_transitive, lemma_bytes_total};

verus! {

broadcast use vstd::array::group_array_axioms;

/// Errors with which the contract refuses a request.
#[derive(Clone, Copy, Debug, PartialEq, Eq, Structural)]
pub enum Error {
    NotFound,
    NotEmpty,
    NotAuthorized,
    NotPermitted,
    MissingWidth,
    MissingId,
    MissingAddress,
    MissingBuy,
    NotInitialized,
}

/// A 32-byte hash: the identity of a glyph, or of a contract's code.
#[derive(Clone, Copy, Debug, PartialEq, Eq, Hash)]
pub struct Hash32(pub [u8; 32]);

/// An account (`contract == false`, identified by its public key) or a
/// contract (`contract == true`, identified by its id).
#[derive(Clone, Copy, Debug, PartialEq, Eq, Hash)]
pub struct Address {
    pub contract: bool,
    pub id: [u8; 32],
}

impl Ordered for Hash32 {
    open spec fn precedes(self, other: Self) -> bool {
        bytes_precede(self.0@, other.0@)
    }

    proof fn lemma_irreflexive(a: Self) {
        lemma_bytes_irreflexive(a.0@);
    }

    proof fn lemma_transitive(a: Self, b: Self, c: Self) {
        lemma_bytes_transitive(a.0@, b.0@, c.0@);
    }

    proof fn lemma_total(a: Self, b: Self) {
        lemma_bytes_total(a.0@, b.0@);
        if a.0@ == b.0@ {
            assert(a.0 =~= b.0);
        }
    }

    fn compare(&self, other: &Self) -> (c: Cmp) {
        compare_bytes32(&self.0, &other.0)
    }
}

impl Ordered for Address {
    /// Accounts come before contracts; within a kind, ids order lexicographically.
    open spec fn precedes(self, other: Self) -> bool {
        (!self.contract && other.contract) || (self.contract == other.contract && bytes_precede(
            self.id@,
            other.id@,
        ))
    }

    proof fn lemma_irreflexive(a: Self) {
        lemma_bytes_irreflexive(a.id@);
    }

    proof fn lemma_transitive(a: Self, b: Self, c: Self) {
        if a.contract == b.contract && b.contract == c.contract {
            lemma_bytes_transitive(a.id@, b.id@, c.id@);
        }
    }

    proof fn lemma_total(a: Self, b: Self) {
        lemma_bytes_total(a.id@, b.id@);
        if a.id@ == b.id@ {
            assert(a.id =~= b.id);
        }
    }

    fn compare(&self, other: &Self) -> (c: Cmp) {
        if !self.contract && other.contract {
            proof {
                lemma_bytes_irreflexive(self.id@);
            }
            Cmp::Less
        } else if self.contract && !other.contract {
            Cmp::Greater
        } else {
            let c = compare_bytes32(&self.id, &other.id);
            proof {
                lemma_bytes_irreflexive(self.id@);
                if bytes_precede(self.id@, other.id@) && bytes_precede(other.id@, self.id@) {
                    lemma_bytes_transitive(self.id@, other.id@, self.id@);
                }
            }
            c
        }
    }
}

/// What one side of a trade gives: a glyph, an amount of a token, or an
/// amount of a token from a named owner.
#[derive(Clone, Copy, Debug, PartialEq, Eq)]
pub enum Offer {
    Glyph(Hash32),
    Asset(Address, i128),
    AssetSell(Address, Address, i128),
}

impl Offer {
    /// The place of a kind of offer in the order: the host orders these
    /// values by the names of their kinds, `Asset` < `AssetSell` < `Glyph`.
    pub open spec fn rank(self) -> int {
        match self {
            Offer::Asset(_, _) => 0,
            Offer::AssetSell(_, _, _) => 1,
            Offer::Glyph(_) => 2,
        }
    }
}

impl Ordered for Offer {
    /// Assets, then asset sales, then glyphs; within a kind, field by field.
    open spec fn precedes(self, other: Self) -> bool {
        match (self, other) {
            (Offer::Glyph(a), Offer::Glyph(b)) => a.precedes(b),
            (Offer::Asset(a, x), Offer::Asset(b, y)) => a.precedes(b) || (a == b && x < y),
            (Offer::AssetSell(o, a, x), Offer::AssetSell(p, b, y)) => o.precedes(p) || (o == p && (
            a.precedes(b) || (a == b && x < y))),
            _ => self.rank() < other.rank(),
        }
    }

    proof fn lemma_irreflexive(a: Self) {
        match a {
            Offer::Glyph(h) => Hash32::lemma_irreflexive(h),
            Offer::Asset(t, _) => Address::lemma_irreflexive(t),
            Offer::AssetSell(o, t, _) => {
                Address::lemma_irreflexive(o);
                Address::lemma_irreflexive(t);
            },
        }
    }

    proof fn lemma_transitive(a: Self, b: Self, c: Self) {
        match (a, b, c) {
            (Offer::Glyph(x), Offer::Glyph(y), Offer::Glyph(z)) => Hash32::lemma_transitive(x, y, z),
            (Offer::Asset(x, _), Offer::Asset(y, _), Offer::Asset(z, _)) => {
                if x.precedes(y) && y.precedes(z) {
                    Address::lemma_transitive(x, y, z);
                }
            },
            (Offer::AssetSell(o, x, _), Offer::AssetSell(p, y, _), Offer::AssetSell(q, z, _)) => {
                if o.precedes(p) && p.precedes(q) {
                    Address::lemma_transitive(o, p, q);
                }
                if x.precedes(y) && y.precedes(z) {
                    Address::lemma_transitive(x, y, z);
                }
            },
            _ => {},
        }
    }

    proof fn lemma_total(a: Self, b: Self) {
        match (a, b) {
            (Offer::Glyph(x), Offer::Glyph(y)) => Hash32::lemma_total(x, y),
            (Offer::Asset(x, _), Offer::Asset(y, _)) => Address::lemma_total(x, y),
            (Offer::AssetSell(o, x, _), Offer::AssetSell(p, y, _)) => {
                Address::lemma_total(o, p);
                Address::lemma_total(x, y);
            },
            _ => {},
        }
    }

    fn compare(&self, other: &Self) -> (c: Cmp) {
        proof {
            Self::lemma_irreflexive(*self);
            Self::lemma_irreflexive(*other);
            if self.precedes(*other) && other.precedes(*self) {
                Self::lemma_transitive(*self, *other, *self);
            }
        }
        match (self, other) {
            (Offer::Glyph(a), Offer::Glyph(b)) => a.compare(b),
            (Offer::Asset(a, x), Offer::Asset(b, y)) => match a.compare(b) {
                Cmp::Equal => if *x < *y {
                    Cmp::Less
                } else if *x == *y {
                    Cmp::Equal
                } else {
                    Cmp::Greater
                },
                c => c,
            },
            (Offer::AssetSell(o, a, x), Offer::AssetSell(p, b, y)) => match o.compare(p) {
                Cmp::Equal => match a.compare(b) {
                    Cmp::Equal => if *x < *y {
                        Cmp::Less
                    } else if *x == *y {
                        Cmp::Equal
                    } else {
                        Cmp::Greater
                    },
                    c => c,
                },
                c => c,
            },
            (Offer::Glyph(_), _) => Cmp::Greater,
            (Offer::Asset(_, _), _) => Cmp::Less,
            (Offer::AssetSell(_, _, _), Offer::Glyph(_)) => Cmp::Less,
            (Offer::AssetSell(_, _, _), Offer::Asset(_, _)) => Cmp::Greater,
        }
    }
}

impl View for Hash32 {
    type V = Hash32;

    open spec fn view(&self) -> Hash32 {
        *self
    }
}

impl View for Address {
    type V = Address;

    open spec fn view(&self) -> Address {
        *self
    }
}

impl Duplicate for Address {
    fn duplicate(&self) -> (r: Self) {
        *self
    }
}

impl View for Offer {
    type V = Offer;

    open spec fn view(&self) -> Offer {
        *self
    }
}

/// The key of a balance: colors of one hue, mined by `miner`, held by `owner`.
#[derive(Clone, Copy, Debug, PartialEq, Eq)]
pub struct ColorKey {
    pub miner: Address,
    pub owner: Address,
    pub color: u32,
}

impl Ordered for ColorKey {
    open spec fn precedes(self, other: Self) -> bool {
        self.miner.precedes(other.miner) || (self.miner == other.miner && (self.owner.precedes(
            other.owner,
        ) || (self.owner == other.owner && self.color < other.color)))
    }

    proof fn lemma_irreflexive(a: Self) {
        Address::lemma_irreflexive(a.miner);
        Address::lemma_irreflexive(a.owner);
    }

    proof fn lemma_transitive(a: Self, b: Self, c: Self) {
        if a.miner.precedes(b.miner) && b.miner.precedes(c.miner) {
            Address::lemma_transitive(a.miner, b.miner, c.miner);
        }
        if a.owner.precedes(b.owner) && b.owner.precedes(c.owner) {
            Address::lemma_transitive(a.owner, b.owner, c.owner);
        }
    }

    proof fn lemma_total(a: Self, b: Self) {
        Address::lemma_total(a.miner, b.miner);
        Address::lemma_total(a.owner, b.owner);
    }

    fn compare(&self, other: &Self) -> (c: Cmp) {
        proof {
            Self::lemma_irreflexive(*self);
            Self::lemma_irreflexive(*other);
            if self.precedes(*other) && other.precedes(*self) {
                Self::lemma_transitive(*self, *other, *self);
            }
        }
        match self.miner.compare(&other.miner) {
            Cmp::Equal => match self.owner.compare(&other.owner) {
                Cmp::Equal => self.color.compare(&other.color),
                c => c,
            },
            c => c,
        }
    }
}

/// The key of the buy offers for a glyph at one price: glyph, token, amount.
#[derive(Clone, Copy, Debug, PartialEq, Eq)]
pub struct AssetKey {
    pub hash: Hash32,
    pub asset: Address,
    pub amount: i128,
}

impl Ordered for AssetKey {
    open spec fn precedes(self, other: Self) -> bool {
        self.hash.precedes(other.hash) || (self.hash == other.hash && (self.asset.precedes(
            other.asset,
        ) || (self.asset == other.asset && self.amount < other.amount)))
    }

    proof fn lemma_irreflexive(a: Self) {
        Hash32::lemma_irreflexive(a.hash);
        Address::lemma_irreflexive(a.asset);
    }

    proof fn lemma_transitive(a: Self, b: Self, c: Self) {
        if a.hash.precedes(b.hash) && b.hash.precedes(c.hash) {
            Hash32::lemma_transitive(a.hash, b.hash, c.hash);
        }
        if a.asset.precedes(b.asset) && b.asset.precedes(c.asset) {
            Address::lemma_transitive(a.asset, b.asset, c.asset);
        }
    }

    proof fn lemma_total(a: Self, b: Self) {
        Hash32::lemma_total(a.hash, b.hash);
        Address::lemma_total(a.asset, b.asset);
    }

    fn compare(&self, other: &Self) -> (c: Cmp) {
        proof {
            Self::lemma_irreflexive(*self);
            Self::lemma_irreflexive(*other);
            if self.precedes(*other) && other.precedes(*self) {
                Self::lemma_transitive(*self, *other, *self);
            }
        }
        match self.hash.compare(&other.hash) {
            Cmp::Equal => match self.asset.compare(&other.asset) {
                Cmp::Equal => if self.amount < other.amount {
                    Cmp::Less
                } else if self.amount == other.amount {
                    Cmp::Equal
                } else {
                    Cmp::Greater
                },
                c => c,
            },
            c => c,
        }
    }
}

/// The colors of a glyph: for each miner, for each color, the pixel indexes
/// painted with it.
pub type GlyphColors = SortedMap<Address, SortedMap<u32, Vec<u32>>>;

/// The colors of a glyph as values: miners in order, each with its colors in order.
pub type ColorsView = Seq<(Address, Seq<(u32, Seq<u32>)>)>;

/// Both levels of a colors map have increasing keys.
pub open spec fn colors_wf(c: ColorsView) -> bool {
    &&& keys_increase(c)
    &&& forall|i: int| 0 <= i < c.len() ==> keys_increase(#[trigger] c[i].1)
}

/// A glyph: its width in pixels, its number of pixels, and its colors.
/// A glyph that is still being built has width and length 0.
pub struct Glyph {
    pub width: u32,
    pub length: u32,
    pub colors: GlyphColors,
}

pub struct GlyphView {
    pub width: u32,
    pub length: u32,
    pub colors: ColorsView,
}

impl View for Glyph {
    type V = GlyphView;

    open spec fn view(&self) -> GlyphView {
        GlyphView { width: self.width, length: self.length, colors: self.colors@ }
    }
}

impl Glyph {
    pub open spec fn wf(&self) -> bool {
        &&& self.colors.wf()
        &&& colors_wf(self.colors@)
    }
}

impl Duplicate for Glyph {
    fn duplicate(&self) -> (r: Self) {
        Glyph { width: self.width, length: self.length, colors: self.colors.duplicate() }
    }
}

/// The settings of a contract, written when it is initialized.
#[derive(Clone, Copy, Debug, PartialEq, Eq)]
pub struct Config {
    pub owner_address: Address,
    pub token_address: Address,
    pub fee_address: Address,
    pub max_entry_lifetime: u32,
    pub max_payment_count: u32,
    pub mine_multiplier: i128,
    pub minter_royalty_rate: i128,
    pub miner_royalty_rate: i128,
}

/// Events the contract publishes.
#[allow(inconsistent_fields)]
#[derive(Clone, Copy, Debug, PartialEq, Eq)]
pub enum Event {
    Minted { minter: Address, to: Option<Address>, hash: Hash32 },
    Minting { minter: Address },
    TransferGlyph { to: Address, hash: Hash32 },
    ScrapeGlyph { owner: Address, to: Option<Address>, hash: Hash32 },
}

/// What an invocation asks of its host besides storage: an authorization, a
/// token transfer, an event, a longer life of the instance storage, or new code.
#[derive(Clone, Copy, Debug, PartialEq, Eq)]
pub enum Action {
    RequireAuth(Address),
    Transfer { token: Address, from: Address, to: Address, amount: i128 },
    Publish(Event),
    ExtendInstanceTtl(u32),
    UpdateContractWasm(Hash32),
}

/// How an invocation ends when it does not succeed: the contract refuses with
/// one of its errors, or it traps (an arithmetic overflow, an index out of
/// bounds, an `unwrap` of nothing) and the host aborts it.
#[derive(Clone, Copy, Debug, PartialEq, Eq)]
pub enum Failure {
    Refused(Error),
    Trapped,
}

/// An offer to be recorded: a glyph for sale with what its owner accepts
/// (`Glyph(hash, buy)`), or an escrowed bid of `amount` of `asset` by
/// `owner` for the glyph `hash` (`Asset(hash, owner, asset, amount)`).
#[derive(Clone, Copy, Debug, PartialEq, Eq)]
pub enum OfferCreate {
    Glyph(Hash32, Offer),
    Asset(Hash32, Address, Address, i128),
}

} // verus!

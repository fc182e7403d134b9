//! The contract's storage: its settings and its persistent tables, with the
//! reads and writes the contract makes of them.

use vstd::prelude::*;
use crate::sorted_map::{Duplicate, SortedMap};
use crate::types::{
    Address, AssetKey, ColorKey, Config, Error, Glyph, GlyphView, Hash32, Offer, colors_wf,
};

verus! {

/// The settings and the persistent tables of one contract.
pub struct Storage {
    pub config: Option<Config>,
    /// (miner, owner, color): amount held.
    pub colors: SortedMap<ColorKey, u32>,
    pub glyphs: SortedMap<Hash32, Glyph>,
    pub glyph_owners: SortedMap<Hash32, Address>,
    pub glyph_minters: SortedMap<Hash32, Address>,
    /// For each glyph, in increasing order, what its owner accepts for it.
    pub glyph_offers: SortedMap<Hash32, Vec<Offer>>,
    /// For each (glyph, token, amount), the buyers who escrowed that amount, first come first.
    pub asset_offers: SortedMap<AssetKey, Vec<Address>>,
}

pub struct StorageView {
    pub config: Option<Config>,
    pub colors: Map<ColorKey, u32>,
    pub glyphs: Map<Hash32, GlyphView>,
    pub owners: Map<Hash32, Address>,
    pub minters: Map<Hash32, Address>,
    pub glyph_offers: Map<Hash32, Seq<Offer>>,
    pub asset_offers: Map<AssetKey, Seq<Address>>,
}

impl View for Storage {
    type V = StorageView;

    open spec fn view(&self) -> StorageView {
        StorageView {
            config: self.config,
            colors: self.colors.map(),
            glyphs: self.glyphs.map(),
            owners: self.glyph_owners.map(),
            minters: self.glyph_minters.map(),
            glyph_offers: self.glyph_offers.map(),
            asset_offers: self.asset_offers.map(),
        }
    }
}

/// What `read_color` gives: the stored amount, or 0.
pub open spec fn balance(s: StorageView, k: ColorKey) -> u32 {
    if s.colors.contains_key(k) {
        s.colors[k]
    } else {
        0
    }
}

/// What `read_offers_by_glyph` gives: the stored offers, or none.
pub open spec fn offers_of(s: StorageView, hash: Hash32) -> Seq<Offer> {
    if s.glyph_offers.contains_key(hash) {
        s.glyph_offers[hash]
    } else {
        Seq::empty()
    }
}

pub open spec fn empty_view() -> StorageView {
    StorageView {
        config: None,
        colors: Map::empty(),
        glyphs: Map::empty(),
        owners: Map::empty(),
        minters: Map::empty(),
        glyph_offers: Map::empty(),
        asset_offers: Map::empty(),
    }
}

impl Storage {
    pub open spec fn wf(&self) -> bool {
        &&& self.colors.wf()
        &&& self.glyphs.wf()
        &&& self.glyph_owners.wf()
        &&& self.glyph_minters.wf()
        &&& self.glyph_offers.wf()
        &&& self.asset_offers.wf()
        &&& forall|h: Hash32| #[trigger]
            self.glyphs.map().contains_key(h) ==> colors_wf(self.glyphs.map()[h].colors)
    }

    /// The storage of a contract that has not been initialized.
    pub fn new() -> (s: Self)
        ensures
            s.wf(),
            s@ == empty_view(),
    {
        Storage {
            config: None,
            colors: SortedMap::new(),
            glyphs: SortedMap::new(),
            glyph_owners: SortedMap::new(),
            glyph_minters: SortedMap::new(),
            glyph_offers: SortedMap::new(),
            asset_offers: SortedMap::new(),
        }
    }

    pub fn duplicate(&self) -> (r: Self)
        requires
            self.wf(),
        ensures
            r.wf(),
            r@ == self@,
    {
        Storage {
            config: self.config,
            colors: self.colors.duplicate(),
            glyphs: self.glyphs.duplicate(),
            glyph_owners: self.glyph_owners.duplicate(),
            glyph_minters: self.glyph_minters.duplicate(),
            glyph_offers: self.glyph_offers.duplicate(),
            asset_offers: self.asset_offers.duplicate(),
        }
    }
}

pub fn write_color(storage: &mut Storage, miner: &Address, to: &Address, color: u32, amount: u32)
    requires
        old(storage).wf(),
    ensures
        final(storage).wf(),
        final(storage)@ == (StorageView {
            colors: old(storage)@.colors.insert(
                ColorKey { miner: *miner, owner: *to, color },
                amount,
            ),
            ..old(storage)@
        }),
{
    storage.colors.set(ColorKey { miner: *miner, owner: *to, color }, amount);
}

pub fn read_color(storage: &Storage, miner: &Address, to: &Address, color: u32) -> (amount: u32)
    requires
        storage.wf(),
    ensures
        amount == balance(storage@, ColorKey { miner: *miner, owner: *to, color }),
{
    match storage.colors.get(&ColorKey { miner: *miner, owner: *to, color }) {
        Some(a) => *a,
        None => 0,
    }
}

pub fn read_glyph<'a>(storage: &'a Storage, hash: &Hash32) -> (r: Option<&'a Glyph>)
    requires
        storage.wf(),
    ensures
        r is Some == storage@.glyphs.contains_key(*hash),
        r is Some ==> r->0@ == storage@.glyphs[*hash] && r->0.wf(),
{
    let r = storage.glyphs.get(hash);
    proof {
        if r is Some {
            assert(colors_wf(storage@.glyphs[*hash].colors));
        }
    }
    r
}

pub fn read_glyph_or_default(storage: &Storage, hash: &Hash32) -> (g: Glyph)
    requires
        storage.wf(),
    ensures
        g.wf(),
        g@ == (if storage@.glyphs.contains_key(*hash) {
            storage@.glyphs[*hash]
        } else {
            GlyphView { width: 0, length: 0, colors: Seq::empty() }
        }),
{
    match read_glyph(storage, hash) {
        Some(g) => g.duplicate(),
        None => Glyph { width: 0, length: 0, colors: SortedMap::new() },
    }
}

pub fn read_glyph_or_error<'a>(storage: &'a Storage, hash: &Hash32) -> (r: Result<&'a Glyph, Error>)
    requires
        storage.wf(),
    ensures
        r is Ok == storage@.glyphs.contains_key(*hash),
        r is Ok ==> r->Ok_0@ == storage@.glyphs[*hash] && r->Ok_0.wf(),
        r is Err ==> r->Err_0 == Error::NotFound,
{
    match read_glyph(storage, hash) {
        Some(g) => Ok(g),
        None => Err(Error::NotFound),
    }
}

pub fn read_glyph_owner(storage: &Storage, hash: &Hash32) -> (r: Option<Address>)
    requires
        storage.wf(),
    ensures
        r is Some == storage@.owners.contains_key(*hash),
        r is Some ==> r->0 == storage@.owners[*hash],
{
    match storage.glyph_owners.get(hash) {
        Some(a) => Some(*a),
        None => None,
    }
}

pub fn remove_glyph_owner(storage: &mut Storage, hash: &Hash32)
    requires
        old(storage).wf(),
    ensures
        final(storage).wf(),
        final(storage)@ == (StorageView { owners: old(storage)@.owners.remove(*hash), ..old(storage)@ }),
{
    storage.glyph_owners.remove(hash);
}

pub fn write_glyph_owner(storage: &mut Storage, hash: &Hash32, new_owner: &Address)
    requires
        old(storage).wf(),
    ensures
        final(storage).wf(),
        final(storage)@ == (StorageView {
            owners: old(storage)@.owners.insert(*hash, *new_owner),
            ..old(storage)@
        }),
{
    storage.glyph_owners.set(*hash, *new_owner);
}

pub fn remove_glyph_offer(storage: &mut Storage, hash: &Hash32)
    requires
        old(storage).wf(),
    ensures
        final(storage).wf(),
        final(storage)@ == (StorageView {
            glyph_offers: old(storage)@.glyph_offers.remove(*hash),
            ..old(storage)@
        }),
{
    storage.glyph_offers.remove(hash);
}

pub fn read_glyph_minter(storage: &Storage, hash: &Hash32) -> (r: Option<Address>)
    requires
        storage.wf(),
    ensures
        r is Some == storage@.minters.contains_key(*hash),
        r is Some ==> r->0 == storage@.minters[*hash],
{
    match storage.glyph_minters.get(hash) {
        Some(a) => Some(*a),
        None => None,
    }
}

pub fn read_offers_by_glyph(storage: &Storage, hash: &Hash32) -> (offers: Vec<Offer>)
    requires
        storage.wf(),
    ensures
        offers@ == offers_of(storage@, *hash),
{
    match storage.glyph_offers.get(hash) {
        Some(v) => v.duplicate(),
        None => Vec::new(),
    }
}

pub fn write_offers_by_glyph(storage: &mut Storage, hash: &Hash32, offers: Vec<Offer>)
    requires
        old(storage).wf(),
    ensures
        final(storage).wf(),
        final(storage)@ == (StorageView {
            glyph_offers: old(storage)@.glyph_offers.insert(*hash, offers@),
            ..old(storage)@
        }),
{
    storage.glyph_offers.set(*hash, offers);
}

pub fn read_asset_offers_by_asset(storage: &Storage, hash: &Hash32, address: &Address, amount: i128)
    -> (r: Option<Vec<Address>>)
    requires
        storage.wf(),
    ensures
        r is Some == storage@.asset_offers.contains_key(AssetKey { hash: *hash, asset: *address, amount }),
        r is Some ==> r->0@ == storage@.asset_offers[AssetKey { hash: *hash, asset: *address, amount }],
{
    match storage.asset_offers.get(&AssetKey { hash: *hash, asset: *address, amount }) {
        Some(v) => Some(v.duplicate()),
        None => None,
    }
}

pub fn remove_asset_offers_by_asset(storage: &mut Storage, hash: &Hash32, address: &Address, amount: i128)
    requires
        old(storage).wf(),
    ensures
        final(storage).wf(),
        final(storage)@ == (StorageView {
            asset_offers: old(storage)@.asset_offers.remove(
                AssetKey { hash: *hash, asset: *address, amount },
            ),
            ..old(storage)@
        }),
{
    storage.asset_offers.remove(&AssetKey { hash: *hash, asset: *address, amount });
}

pub fn has_asset_offers_by_asset(storage: &Storage, hash: &Hash32, address: &Address, amount: i128) -> (b: bool)
    requires
        storage.wf(),
    ensures
        b == storage@.asset_offers.contains_key(AssetKey { hash: *hash, asset: *address, amount }),
{
    storage.asset_offers.contains_key(&AssetKey { hash: *hash, asset: *address, amount })
}

pub fn write_asset_offers_by_asset(
    storage: &mut Storage,
    hash: &Hash32,
    address: &Address,
    amount: i128,
    offers: &Vec<Address>,
)
    requires
        old(storage).wf(),
    ensures
        final(storage).wf(),
        final(storage)@ == (StorageView {
            asset_offers: old(storage)@.asset_offers.insert(
                AssetKey { hash: *hash, asset: *address, amount },
                offers@,
            ),
            ..old(storage)@
        }),
{
    storage.asset_offers.set(AssetKey { hash: *hash, asset: *address, amount }, offers.duplicate());
}

pub fn write_owner_address(storage: &mut Storage, owner_address: &Address)
    requires
        old(storage).wf(),
        old(storage).config is Some,
    ensures
        final(storage).wf(),
        final(storage)@ == (StorageView {
            config: Some(Config { owner_address: *owner_address, ..old(storage).config->0 }),
            ..old(storage)@
        }),
{
    let mut c = storage.config.unwrap();
    c.owner_address = *owner_address;
    storage.config = Some(c);
}

pub fn write_token_address(storage: &mut Storage, token_address: &Address)
    requires
        old(storage).wf(),
        old(storage).config is Some,
    ensures
        final(storage).wf(),
        final(storage)@ == (StorageView {
            config: Some(Config { token_address: *token_address, ..old(storage).config->0 }),
            ..old(storage)@
        }),
{
    let mut c = storage.config.unwrap();
    c.token_address = *token_address;
    storage.config = Some(c);
}

pub fn write_fee_address(storage: &mut Storage, fee_address: &Address)
    requires
        old(storage).wf(),
        old(storage).config is Some,
    ensures
        final(storage).wf(),
        final(storage)@ == (StorageView {
            config: Some(Config { fee_address: *fee_address, ..old(storage).config->0 }),
            ..old(storage)@
        }),
{
    let mut c = storage.config.unwrap();
    c.fee_address = *fee_address;
    storage.config = Some(c);
}

pub fn write_max_entry_lifetime(storage: &mut Storage, max_entry_lifetime: &u32)
    requires
        old(storage).wf(),
        old(storage).config is Some,
    ensures
        final(storage).wf(),
        final(storage)@ == (StorageView {
            config: Some(Config { max_entry_lifetime: *max_entry_lifetime, ..old(storage).config->0 }),
            ..old(storage)@
        }),
{
    let mut c = storage.config.unwrap();
    c.max_entry_lifetime = *max_entry_lifetime;
    storage.config = Some(c);
}

pub fn write_max_payment_count(storage: &mut Storage, max_payment_count: &u32)
    requires
        old(storage).wf(),
        old(storage).config is Some,
    ensures
        final(storage).wf(),
        final(storage)@ == (StorageView {
            config: Some(Config { max_payment_count: *max_payment_count, ..old(storage).config->0 }),
            ..old(storage)@
        }),
{
    let mut c = storage.config.unwrap();
    c.max_payment_count = *max_payment_count;
    storage.config = Some(c);
}

pub fn write_mine_multiplier(storage: &mut Storage, mine_multiplier: &i128)
    requires
        old(storage).wf(),
        old(storage).config is Some,
    ensures
        final(storage).wf(),
        final(storage)@ == (StorageView {
            config: Some(Config { mine_multiplier: *mine_multiplier, ..old(storage).config->0 }),
            ..old(storage)@
        }),
{
    let mut c = storage.config.unwrap();
    c.mine_multiplier = *mine_multiplier;
    storage.config = Some(c);
}

pub fn write_minter_royalty_rate(storage: &mut Storage, minter_royalty_rate: &i128)
    requires
        old(storage).wf(),
        old(storage).config is Some,
    ensures
        final(storage).wf(),
        final(storage)@ == (StorageView {
            config: Some(Config { minter_royalty_rate: *minter_royalty_rate, ..old(storage).config->0 }),
            ..old(storage)@
        }),
{
    let mut c = storage.config.unwrap();
    c.minter_royalty_rate = *minter_royalty_rate;
    storage.config = Some(c);
}

pub fn write_miner_royalty_rate(storage: &mut Storage, miner_royalty_rate: &i128)
    requires
        old(storage).wf(),
        old(storage).config is Some,
    ensures
        final(storage).wf(),
        final(storage)@ == (StorageView {
            config: Some(Config { miner_royalty_rate: *miner_royalty_rate, ..old(storage).config->0 }),
            ..old(storage)@
        }),
{
    let mut c = storage.config.unwrap();
    c.miner_royalty_rate = *miner_royalty_rate;
    storage.config = Some(c);
}

pub fn read_owner_address(storage: &Storage) -> (r: Result<Address, Error>)
    ensures
        r == (match storage.config {
            Some(c) => Ok(c.owner_address),
            None => Err(Error::NotInitialized),
        }),
{
    match &storage.config {
        Some(c) => Ok(c.owner_address),
        None => Err(Error::NotInitialized),
    }
}

pub fn read_token_address(storage: &Storage) -> (r: Result<Address, Error>)
    ensures
        r == (match storage.config {
            Some(c) => Ok(c.token_address),
            None => Err(Error::NotInitialized),
        }),
{
    match &storage.config {
        Some(c) => Ok(c.token_address),
        None => Err(Error::NotInitialized),
    }
}

pub fn read_fee_address(storage: &Storage) -> (r: Result<Address, Error>)
    ensures
        r == (match storage.config {
            Some(c) => Ok(c.fee_address),
            None => Err(Error::NotInitialized),
        }),
{
    match &storage.config {
        Some(c) => Ok(c.fee_address),
        None => Err(Error::NotInitialized),
    }
}

pub fn read_max_entry_lifetime(storage: &Storage) -> (r: Result<u32, Error>)
    ensures
        r == (match storage.config {
            Some(c) => Ok(c.max_entry_lifetime),
            None => Err(Error::NotInitialized),
        }),
{
    match &storage.config {
        Some(c) => Ok(c.max_entry_lifetime),
        None => Err(Error::NotInitialized),
    }
}

pub fn read_max_payment_count(storage: &Storage) -> (r: Result<u32, Error>)
    ensures
        r == (match storage.config {
            Some(c) => Ok(c.max_payment_count),
            None => Err(Error::NotInitialized),
        }),
{
    match &storage.config {
        Some(c) => Ok(c.max_payment_count),
        None => Err(Error::NotInitialized),
    }
}

pub fn read_mine_multiplier(storage: &Storage) -> (r: Result<i128, Error>)
    ensures
        r == (match storage.config {
            Some(c) => Ok(c.mine_multiplier),
            None => Err(Error::NotInitialized),
        }),
{
    match &storage.config {
        Some(c) => Ok(c.mine_multiplier),
        None => Err(Error::NotInitialized),
    }
}

pub fn read_minter_royalty_rate(storage: &Storage) -> (r: Result<i128, Error>)
    ensures
        r == (match storage.config {
            Some(c) => Ok(c.minter_royalty_rate),
            None => Err(Error::NotInitialized),
        }),
{
    match &storage.config {
        Some(c) => Ok(c.minter_royalty_rate),
        None => Err(Error::NotInitialized),
    }
}

pub fn read_miner_royalty_rate(storage: &Storage) -> (r: Result<i128, Error>)
    ensures
        r == (match storage.config {
            Some(c) => Ok(c.miner_royalty_rate),
            None => Err(Error::NotInitialized),
        }),
{
    match &storage.config {
        Some(c) => Ok(c.miner_royalty_rate),
        None => Err(Error::NotInitialized),
    }
}

} // verus!

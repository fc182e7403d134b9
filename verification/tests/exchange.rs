use colorglyph::contract::ColorGlyph;
use colorglyph::sorted_map::SortedMap;
use colorglyph::storage::{read_asset_offers_by_asset, read_glyph_owner, read_offers_by_glyph, Storage};
use colorglyph::offers::offer_post_create;
use colorglyph::types::{Action, Address, Error, Failure, GlyphColors, Hash32, Offer, OfferCreate};
use soroban_sdk::Env;

const HASH_A: [u8; 32] = [
    224, 179, 165, 100, 67, 84, 141, 170, 240, 57, 16, 144, 197, 150, 233, 228, 182, 98, 154, 0,
    158, 162, 216, 176, 66, 231, 63, 61, 145, 126, 165, 159,
];

fn account(n: u8) -> Address {
    Address { contract: false, id: [n; 32] }
}

fn contract_address(n: u8) -> Address {
    Address { contract: true, id: [n; 32] }
}

fn this() -> Address {
    contract_address(100)
}

fn token() -> Address {
    contract_address(200)
}

/// Ten colors from black toward white, one pixel each, as `floor(16777215 * i / 10)`.
fn colors_for(miner: Address) -> (GlyphColors, SortedMap<u32, u32>) {
    let mut indexes: SortedMap<u32, Vec<u32>> = SortedMap::new();
    let mut amounts: SortedMap<u32, u32> = SortedMap::new();
    for i in 0..10u32 {
        let hex = (16777215u64 * i as u64 / 10) as u32;
        indexes.set(hex, vec![i]);
        amounts.set(hex, 1);
    }
    let mut colors: GlyphColors = SortedMap::new();
    colors.set(miner, indexes);
    (colors, amounts)
}

/// A contract where `account(1)` owns the finished glyph `HASH_A`, minted
/// from colors it mined itself.
fn minted() -> (Storage, Env) {
    let env = Env::default();
    let mut storage = Storage::new();
    ColorGlyph::initialize(&mut storage, account(1), token(), account(9), 1).unwrap();
    let (colors, amounts) = colors_for(account(1));
    ColorGlyph::colors_mine(&mut storage, account(1), &amounts, None, None).unwrap();
    ColorGlyph::glyph_mint(&mut storage, &env, Hash32(HASH_A), account(1), None, &colors, Some(16))
        .unwrap();
    (storage, env)
}

fn glyph() -> Offer {
    Offer::Glyph(Hash32(HASH_A))
}

#[test]
fn sell_offers_are_kept_in_order() {
    let (mut storage, _env) = minted();
    let other = Offer::Glyph(Hash32([7; 32]));
    ColorGlyph::offer_post(&mut storage, this(), glyph(), Offer::Asset(token(), 100)).unwrap();
    ColorGlyph::offer_post(&mut storage, this(), glyph(), other).unwrap();
    ColorGlyph::offer_post(&mut storage, this(), glyph(), Offer::Asset(token(), 5)).unwrap();
    assert_eq!(
        read_offers_by_glyph(&storage, &Hash32(HASH_A)),
        vec![Offer::Asset(token(), 5), Offer::Asset(token(), 100), other]
    );
}

#[test]
fn a_posted_offer_is_found_and_a_second_one_refused() {
    let (mut storage, _env) = minted();
    let other = Offer::Glyph(Hash32([7; 32]));
    let actions = ColorGlyph::offer_post(&mut storage, this(), glyph(), other).unwrap();
    assert_eq!(actions, vec![Action::RequireAuth(account(1))]);
    assert_eq!(ColorGlyph::offers_get(&storage, glyph(), Some(other)), Ok(()));
    assert_eq!(ColorGlyph::offers_get(&storage, glyph(), None), Ok(()));
    assert_eq!(
        ColorGlyph::offer_post(&mut storage, this(), glyph(), other),
        Err(Failure::Refused(Error::NotEmpty))
    );
}

#[test]
fn a_posted_bid_escrows_and_is_found_and_a_second_one_refused() {
    let (mut storage, _env) = minted();
    let bid = Offer::AssetSell(account(2), token(), 40);
    let actions = ColorGlyph::offer_post(&mut storage, this(), bid, glyph()).unwrap();
    assert_eq!(
        actions,
        vec![
            Action::RequireAuth(account(2)),
            Action::Transfer { token: token(), from: account(2), to: this(), amount: 40 },
        ]
    );
    assert_eq!(ColorGlyph::offers_get(&storage, bid, Some(glyph())), Ok(()));
    assert_eq!(ColorGlyph::offers_get(&storage, Offer::Asset(token(), 40), Some(glyph())), Ok(()));
    assert_eq!(
        ColorGlyph::offer_post(&mut storage, this(), bid, glyph()),
        Err(Failure::Refused(Error::NotEmpty))
    );
    let bids = read_asset_offers_by_asset(&storage, &Hash32(HASH_A), &token(), 40).unwrap();
    assert_eq!(bids, vec![account(2)]);
}

#[test]
fn bids_are_served_first_come_first_served() {
    let (mut storage, _env) = minted();
    ColorGlyph::offer_post(&mut storage, this(), Offer::AssetSell(account(3), token(), 40), glyph())
        .unwrap();
    ColorGlyph::offer_post(&mut storage, this(), Offer::AssetSell(account(2), token(), 40), glyph())
        .unwrap();
    ColorGlyph::offer_post(&mut storage, this(), glyph(), Offer::Asset(token(), 40)).unwrap();
    assert_eq!(read_glyph_owner(&storage, &Hash32(HASH_A)), Some(account(3)));
    let bids = read_asset_offers_by_asset(&storage, &Hash32(HASH_A), &token(), 40).unwrap();
    assert_eq!(bids, vec![account(2)]);
}

#[test]
fn escrow_is_paid_out_in_full() {
    let (mut storage, _env) = minted();
    ColorGlyph::offer_post(&mut storage, this(), Offer::AssetSell(account(2), token(), 100), glyph())
        .unwrap();
    let actions =
        ColorGlyph::offer_post(&mut storage, this(), glyph(), Offer::Asset(token(), 100)).unwrap();
    // The minter's 3, the miner's 2 and the 95 left all go to the seller.
    assert_eq!(
        actions,
        vec![
            Action::RequireAuth(account(1)),
            Action::Transfer { token: token(), from: this(), to: account(1), amount: 3 },
            Action::Transfer { token: token(), from: this(), to: account(1), amount: 2 },
            Action::Transfer { token: token(), from: this(), to: account(1), amount: 95 },
        ]
    );
    let total: i128 = actions
        .iter()
        .map(|a| match a {
            Action::Transfer { amount, .. } => *amount,
            _ => 0,
        })
        .sum();
    assert_eq!(total, 100);
    assert_eq!(ColorGlyph::offers_get(&storage, glyph(), None), Err(Error::NotFound));
}

#[test]
fn a_buyer_paying_directly_skips_paying_itself() {
    let (mut storage, _env) = minted();
    ColorGlyph::offer_post(&mut storage, this(), glyph(), Offer::Asset(token(), 100)).unwrap();
    // The seller buys its own glyph: every payment would go to itself.
    let actions = ColorGlyph::offer_post(
        &mut storage,
        this(),
        Offer::AssetSell(account(1), token(), 100),
        glyph(),
    )
    .unwrap();
    assert_eq!(actions, vec![Action::RequireAuth(account(1))]);
}

#[test]
fn a_withdrawn_offer_and_a_withdrawn_bid_are_gone() {
    let (mut storage, _env) = minted();
    let price = Offer::Asset(token(), 7);
    ColorGlyph::offer_post(&mut storage, this(), glyph(), price).unwrap();
    ColorGlyph::offer_delete(&mut storage, this(), glyph(), Some(price)).unwrap();
    assert_eq!(ColorGlyph::offers_get(&storage, glyph(), Some(price)), Err(Error::NotFound));
    assert_eq!(
        ColorGlyph::offer_delete(&mut storage, this(), glyph(), Some(price)),
        Err(Failure::Refused(Error::NotFound))
    );

    let bid = Offer::AssetSell(account(2), token(), 40);
    ColorGlyph::offer_post(&mut storage, this(), bid, glyph()).unwrap();
    let actions = ColorGlyph::offer_delete(&mut storage, this(), bid, Some(glyph())).unwrap();
    assert_eq!(
        actions,
        vec![
            Action::RequireAuth(account(2)),
            Action::Transfer { token: token(), from: this(), to: account(2), amount: 40 },
        ]
    );
    assert_eq!(ColorGlyph::offers_get(&storage, bid, Some(glyph())), Err(Error::NotFound));
    assert_eq!(read_asset_offers_by_asset(&storage, &Hash32(HASH_A), &token(), 40), None);
}

#[test]
fn malformed_requests_are_refused() {
    let (mut storage, _env) = minted();
    let asset = Offer::Asset(token(), 1);
    let bid = Offer::AssetSell(account(2), token(), 1);
    assert_eq!(
        ColorGlyph::offer_post(&mut storage, this(), asset, asset),
        Err(Failure::Refused(Error::NotPermitted))
    );
    assert_eq!(
        ColorGlyph::offer_post(&mut storage, this(), asset, glyph()),
        Err(Failure::Refused(Error::NotPermitted))
    );
    assert_eq!(
        ColorGlyph::offer_delete(&mut storage, this(), bid, None),
        Err(Failure::Refused(Error::MissingBuy))
    );
    assert_eq!(
        ColorGlyph::offer_delete(&mut storage, this(), bid, Some(asset)),
        Err(Failure::Refused(Error::NotPermitted))
    );
    assert_eq!(ColorGlyph::offers_get(&storage, asset, None), Err(Error::MissingBuy));
    assert_eq!(ColorGlyph::offers_get(&storage, bid, Some(asset)), Err(Error::NotPermitted));
    assert_eq!(
        ColorGlyph::offer_post(&mut storage, this(), Offer::Glyph(Hash32([7; 32])), asset),
        Err(Failure::Refused(Error::NotFound))
    );
}

#[test]
fn posting_then_withdrawing_restores_the_offers() {
    let (mut storage, _env) = minted();
    ColorGlyph::offer_post(&mut storage, this(), glyph(), Offer::Asset(token(), 9)).unwrap();
    let before = read_offers_by_glyph(&storage, &Hash32(HASH_A));
    let b = Offer::Glyph(Hash32([7; 32]));
    let posted = ColorGlyph::offer_post(&mut storage, this(), glyph(), b).unwrap();
    let withdrawn = ColorGlyph::offer_delete(&mut storage, this(), glyph(), Some(b)).unwrap();
    assert_eq!(posted, vec![Action::RequireAuth(account(1))]);
    assert_eq!(withdrawn, vec![Action::RequireAuth(account(1))]);
    assert_eq!(read_offers_by_glyph(&storage, &Hash32(HASH_A)), before);
}

#[test]
fn a_refused_duplicate_leaves_the_offers_alone() {
    let (mut storage, _env) = minted();
    let price = Offer::Asset(token(), 9);
    offer_post_create(&mut storage, this(), OfferCreate::Glyph(Hash32(HASH_A), price)).unwrap();
    let before = read_offers_by_glyph(&storage, &Hash32(HASH_A));
    assert_eq!(
        offer_post_create(&mut storage, this(), OfferCreate::Glyph(Hash32(HASH_A), price)),
        Err(Failure::Refused(Error::NotEmpty))
    );
    assert_eq!(read_offers_by_glyph(&storage, &Hash32(HASH_A)), before);
    let bid = OfferCreate::Asset(Hash32(HASH_A), account(2), token(), 4);
    offer_post_create(&mut storage, this(), bid).unwrap();
    assert_eq!(
        offer_post_create(&mut storage, this(), bid),
        Err(Failure::Refused(Error::NotEmpty))
    );
    assert_eq!(
        read_asset_offers_by_asset(&storage, &Hash32(HASH_A), &token(), 4),
        Some(vec![account(2)])
    );
}

use colorglyph::contract::ColorGlyph;
use colorglyph::sorted_map::{Duplicate, SortedMap};
use colorglyph::storage::{read_glyph_owner, Storage};
use colorglyph::types::{Action, Address, Error, Failure, GlyphColors, Hash32, Offer};
use soroban_fixed_point_math::FixedPoint;
use soroban_sdk::Env;

const ITERS: i128 = 10i128;

const HASH_NINE: [u8; 32] = [
    147, 216, 111, 191, 20, 118, 231, 24, 42, 53, 1, 119, 153, 40, 169, 202, 38, 174, 210, 72,
    218, 226, 128, 47, 56, 0, 173, 193, 23, 53, 215, 104,
];

const HASH_A: [u8; 32] = [
    224, 179, 165, 100, 67, 84, 141, 170, 240, 57, 16, 144, 197, 150, 233, 228, 182, 98, 154, 0,
    158, 162, 216, 176, 66, 231, 63, 61, 145, 126, 165, 159,
];

const HASH_B: [u8; 32] = [
    92, 172, 213, 83, 168, 226, 88, 11, 244, 52, 99, 220, 152, 214, 120, 211, 120, 145, 52, 115,
    46, 190, 128, 207, 131, 84, 153, 178, 171, 44, 105, 221,
];

fn account(n: u8) -> Address {
    Address { contract: false, id: [n; 32] }
}

fn contract_address(n: u8) -> Address {
    Address { contract: true, id: [n; 32] }
}

/// A token ledger standing for the token contract: transfers move balances
/// and fail on a negative amount or an overdraft.
struct Ledger {
    balances: Vec<(Address, i128)>,
}

impl Ledger {
    fn new() -> Self {
        Ledger { balances: Vec::new() }
    }

    fn balance(&self, a: &Address) -> i128 {
        self.balances.iter().find(|(b, _)| b == a).map(|(_, v)| *v).unwrap_or(0)
    }

    fn set(&mut self, a: &Address, v: i128) {
        match self.balances.iter_mut().find(|(b, _)| b == a) {
            Some(entry) => entry.1 = v,
            None => self.balances.push((*a, v)),
        }
    }

    fn apply(&mut self, token: &Address, actions: &[Action]) {
        for action in actions {
            if let Action::Transfer { token: t, from, to, amount } = action {
                assert_eq!(t, token);
                assert!(*amount >= 0, "negative amount");
                let from_balance = self.balance(from);
                assert!(from_balance >= *amount, "balance is not sufficient to spend");
                self.set(from, from_balance - amount);
                let to_balance = self.balance(to);
                self.set(to, to_balance + amount);
            }
        }
    }
}

/// The contract and its token, as a test drives them.
struct World {
    env: Env,
    storage: Storage,
    ledger: Ledger,
    this: Address,
    token: Address,
}

impl World {
    fn new(accounts: &[Address], fee: Address) -> Self {
        let mut storage = Storage::new();
        let token = contract_address(200);
        let mut ledger = Ledger::new();
        for a in accounts {
            ledger.set(a, 10_000);
        }
        ColorGlyph::initialize(&mut storage, accounts[0], token, fee, 1).unwrap();
        World { env: Env::default(), storage, ledger, this: contract_address(100), token }
    }

    fn mine(&mut self, source: Address, colors: &SortedMap<u32, u32>, to: Option<Address>) {
        let actions = ColorGlyph::colors_mine(&mut self.storage, source, colors, None, to).unwrap();
        self.ledger.apply(&self.token, &actions);
    }

    fn mint(&mut self, hash: [u8; 32], minter: Address, colors: &GlyphColors, width: Option<u32>) {
        ColorGlyph::glyph_mint(
            &mut self.storage,
            &self.env,
            Hash32(hash),
            minter,
            None,
            colors,
            width,
        )
        .unwrap();
    }

    fn post(&mut self, sell: Offer, buy: Offer) -> Result<(), Failure> {
        let actions = ColorGlyph::offer_post(&mut self.storage, self.this, sell, buy)?;
        self.ledger.apply(&self.token, &actions);
        Ok(())
    }

    fn delete(&mut self, sell: Offer, buy: Option<Offer>) -> Result<(), Failure> {
        let actions = ColorGlyph::offer_delete(&mut self.storage, self.this, sell, buy)?;
        self.ledger.apply(&self.token, &actions);
        Ok(())
    }

    fn get(&self, sell: Offer, buy: Option<Offer>) -> Result<(), Error> {
        ColorGlyph::offers_get(&self.storage, sell, buy)
    }

    fn owner(&self, hash: [u8; 32]) -> Option<Address> {
        read_glyph_owner(&self.storage, &Hash32(hash))
    }
}

/// One pixel a color, `ITERS` colors spread from black to white:
/// pixel `i` has color `floor(16777215 * (i + shift) / divisor)`.
fn palette(divisor: i128, shift: i128) -> (SortedMap<u32, Vec<u32>>, SortedMap<u32, u32>) {
    let mut colors_indexes: SortedMap<u32, Vec<u32>> = SortedMap::new();
    let mut color_amount: SortedMap<u32, u32> = SortedMap::new();
    for i in 0..ITERS {
        let hex = 16777215i128.fixed_div_floor(divisor, i + shift).unwrap();
        colors_indexes.set(hex as u32, vec![i as u32]);
        color_amount.set(hex as u32, 1);
    }
    (colors_indexes, color_amount)
}

fn by_miner(miner: Address, colors_indexes: SortedMap<u32, Vec<u32>>) -> GlyphColors {
    let mut colors: GlyphColors = SortedMap::new();
    colors.set(miner, colors_indexes);
    colors
}

#[test]
fn test_self_purchase() {
    let u1_address = account(1);
    let u2_address = account(2);
    let fee_address = account(9);
    let mut w = World::new(&[u1_address, u2_address], fee_address);

    let (colors_indexes, color_amount) = palette(ITERS - 1, 0);
    w.mine(u1_address, &color_amount, None);
    w.mint(HASH_NINE, u1_address, &by_miner(u1_address, colors_indexes), Some(16));

    let amount: i128 = 100;
    let glyph = Offer::Glyph(Hash32(HASH_NINE));
    let asset = Offer::Asset(w.token, amount);
    let asset_sell = Offer::AssetSell(u1_address, w.token, amount);

    w.post(glyph, asset).unwrap();
    w.post(asset_sell, glyph).unwrap();

    w.post(glyph, glyph).unwrap();

    w.get(glyph, Some(glyph)).unwrap();

    w.post(glyph, glyph).unwrap();

    assert_eq!(w.get(glyph, Some(glyph)), Err(Error::NotFound));
}

#[test]
fn test_sell_scrape_buy() {
    let u1_address = account(1);
    let u2_address = account(2);
    let fee_address = account(9);
    let mut w = World::new(&[u1_address, u2_address], fee_address);

    let (colors_indexes, color_amount) = palette(ITERS, 0);
    w.mine(u1_address, &color_amount, None);
    w.mint(HASH_A, u1_address, &by_miner(u1_address, colors_indexes.duplicate()), Some(16));

    let amount: i128 = 100;
    let glyph = Offer::Glyph(Hash32(HASH_A));
    let asset = Offer::Asset(w.token, amount);
    let asset_sell = Offer::AssetSell(u2_address, w.token, amount);

    w.post(glyph, asset).unwrap();

    ColorGlyph::glyph_scrape(&mut w.storage, None, Hash32(HASH_A)).unwrap();

    assert_eq!(ColorGlyph::glyph_get(&w.storage, Hash32(HASH_A)).unwrap().colors.len(), 0);

    assert_eq!(w.get(glyph, None), Err(Error::NotFound));

    w.post(asset_sell, glyph).unwrap();

    w.get(asset, Some(glyph)).unwrap();

    w.mint(HASH_A, u1_address, &by_miner(u1_address, colors_indexes), Some(16));

    w.post(glyph, asset).unwrap();

    assert_eq!(w.get(asset, Some(glyph)), Err(Error::NotFound));

    assert_eq!(w.get(glyph, Some(asset)), Err(Error::NotFound));

    assert_eq!(w.owner(HASH_A), Some(u2_address));
}

#[test]
fn test_dupe() {
    let u1_address = account(1);
    let u2_address = account(2);
    let fee_address = account(9);
    let mut w = World::new(&[u1_address, u2_address], fee_address);

    let (colors_indexes, color_amount) = palette(ITERS, 0);
    w.mine(u1_address, &color_amount, None);
    w.mint(HASH_A, u1_address, &by_miner(u1_address, colors_indexes), Some(16));

    let amount: i128 = 100;
    let glyph = Offer::Glyph(Hash32(HASH_A));
    let asset = Offer::Asset(w.token, amount);
    let asset_sell = Offer::AssetSell(u2_address, w.token, amount);

    w.post(glyph, asset).unwrap();

    assert_eq!(w.post(glyph, asset), Err(Failure::Refused(Error::NotEmpty)));

    w.delete(glyph, None).unwrap();

    w.post(asset_sell, glyph).unwrap();

    assert_eq!(w.post(asset_sell, glyph), Err(Failure::Refused(Error::NotEmpty)));
}

#[test]
fn offers_test_buy_glyph() {
    let u1_address = account(1);
    let u2_address = account(2);
    let u3_address = account(3);
    let fee_address = account(9);
    let mut w = World::new(&[u1_address, u2_address, u3_address], fee_address);

    let (colors_indexes, color_amount) = palette(ITERS, 0);
    w.mine(u3_address, &color_amount, Some(u1_address));

    w.mint(HASH_A, u1_address, &by_miner(u3_address, colors_indexes), None);
    w.mint(HASH_A, u1_address, &SortedMap::new(), Some(16));

    let amount: i128 = 100;
    let glyph = Offer::Glyph(Hash32(HASH_A));
    let asset = Offer::Asset(w.token, amount);
    let asset_sell = Offer::AssetSell(u2_address, w.token, amount);

    w.post(asset_sell, glyph).unwrap();
    w.get(asset_sell, Some(glyph)).unwrap();
    w.get(asset, Some(glyph)).unwrap();

    assert_eq!(
        w.get(Offer::AssetSell(u1_address, w.token, amount), Some(glyph)),
        Err(Error::NotFound)
    );

    w.post(glyph, asset).unwrap();

    assert_eq!(w.owner(HASH_A), Some(u2_address));

    assert_eq!(w.get(asset, Some(glyph)), Err(Error::NotFound));

    assert_eq!(w.get(glyph, Some(asset)), Err(Error::NotFound));

    assert_eq!(w.ledger.balance(&fee_address), 10i128);
    assert_eq!(w.ledger.balance(&w.this), 0i128);
    assert_eq!(w.ledger.balance(&u1_address), 10_098i128);
    assert_eq!(w.ledger.balance(&u2_address), 9_900i128);
    assert_eq!(w.ledger.balance(&u3_address), 9_992i128);
}

#[test]
fn offers_test_sell_glyph() {
    let u1_address = account(1);
    let u2_address = account(2);
    let u3_address = account(3);
    let fee_address = account(9);
    let mut w = World::new(&[u1_address, u2_address, u3_address], fee_address);

    let (colors_indexes, color_amount) = palette(ITERS, 0);
    w.mine(u3_address, &color_amount, Some(u1_address));

    w.mint(HASH_A, u1_address, &by_miner(u3_address, colors_indexes), None);
    w.mint(HASH_A, u1_address, &SortedMap::new(), Some(16));

    let amount: i128 = 100;
    let glyph = Offer::Glyph(Hash32(HASH_A));
    let asset = Offer::Asset(w.token, amount);
    let asset_sell = Offer::AssetSell(u2_address, w.token, amount);

    w.post(glyph, asset).unwrap();

    w.post(asset_sell, glyph).unwrap();

    assert_eq!(w.owner(HASH_A), Some(u2_address));

    assert_eq!(w.get(asset, Some(glyph)), Err(Error::NotFound));

    assert_eq!(w.get(asset, Some(glyph)), Err(Error::NotFound));

    assert_eq!(w.ledger.balance(&w.this), 0i128);
    assert_eq!(w.ledger.balance(&u1_address), 10_098i128);
    assert_eq!(w.ledger.balance(&u2_address), 9_900i128);
    assert_eq!(w.ledger.balance(&u3_address), 9_992i128);
}

#[test]
fn offers_test_swap_glyph() {
    let u1_address = account(1);
    let u2_address = account(2);
    let fee_address = account(9);
    let mut w = World::new(&[u1_address, u2_address], fee_address);

    let (colors_a_indexes, colors_a_amount) = palette(ITERS, 0);
    let (colors_b_indexes, colors_b_amount) = palette(ITERS, 1);

    w.mine(u1_address, &colors_a_amount, None);
    w.mint(HASH_A, u1_address, &by_miner(u1_address, colors_a_indexes), None);
    w.mint(HASH_A, u1_address, &SortedMap::new(), Some(16));

    w.mine(u2_address, &colors_b_amount, None);
    w.mint(HASH_B, u2_address, &by_miner(u2_address, colors_b_indexes), None);
    w.mint(HASH_B, u2_address, &SortedMap::new(), Some(16));

    let glyph_1 = Offer::Glyph(Hash32(HASH_A));
    let glyph_2 = Offer::Glyph(Hash32(HASH_B));

    w.post(glyph_1, glyph_2).unwrap();

    w.post(glyph_2, glyph_1).unwrap();

    assert_eq!(w.owner(HASH_A), Some(u2_address));
    assert_eq!(w.owner(HASH_B), Some(u1_address));

    assert_eq!(w.get(glyph_1, Some(glyph_2)), Err(Error::NotFound));

    assert_eq!(w.get(glyph_2, Some(glyph_1)), Err(Error::NotFound));
}

#[test]
fn offers_test_rm_glyph_buy() {
    let u1_address = account(1);
    let fee_address = account(9);
    let mut w = World::new(&[u1_address], fee_address);

    let (colors_indexes, color_amount) = palette(ITERS, 0);
    w.mine(u1_address, &color_amount, None);
    w.mint(HASH_A, u1_address, &by_miner(u1_address, colors_indexes), None);
    w.mint(HASH_A, u1_address, &SortedMap::new(), Some(16));

    let amount: i128 = 1;
    let glyph = Offer::Glyph(Hash32(HASH_A));
    let asset = Offer::Asset(w.token, amount);
    let asset_sell = Offer::AssetSell(u1_address, w.token, amount);

    w.post(asset_sell, glyph).unwrap();

    assert_eq!(w.ledger.balance(&w.this), 1i128);

    assert_eq!(w.ledger.balance(&u1_address), 9_989i128);

    w.get(asset, Some(glyph)).unwrap();

    w.delete(asset_sell, Some(glyph)).unwrap();

    assert_eq!(w.get(asset, Some(glyph)), Err(Error::NotFound));

    assert_eq!(w.ledger.balance(&w.this), 0i128);

    assert_eq!(w.ledger.balance(&u1_address), 9990i128);
}

#[test]
fn offers_test_rm_glyph_sell() {
    let u1_address = account(1);
    let fee_address = account(9);
    let mut w = World::new(&[u1_address], fee_address);

    let (colors_indexes, color_amount) = palette(ITERS, 0);
    w.mine(u1_address, &color_amount, None);
    w.mint(HASH_A, u1_address, &by_miner(u1_address, colors_indexes), None);
    w.mint(HASH_A, u1_address, &SortedMap::new(), Some(16));

    let glyph = Offer::Glyph(Hash32(HASH_A));
    let asset = Offer::Asset(w.token, 1i128);

    w.post(glyph, asset).unwrap();

    w.get(glyph, Some(asset)).unwrap();

    w.delete(glyph, Some(asset)).unwrap();

    assert_eq!(w.get(glyph, Some(asset)), Err(Error::NotFound));

    assert_eq!(w.ledger.balance(&w.this), 0i128);

    assert_eq!(w.ledger.balance(&u1_address), 9990i128);
}

#[test]
fn offers_test_rm_glyph_swap() {
    let u1_address = account(1);
    let u2_address = account(2);
    let fee_address = account(9);
    let mut w = World::new(&[u1_address, u2_address], fee_address);

    let (colors_a_indexes, colors_a_amount) = palette(ITERS, 0);
    let (colors_b_indexes, colors_b_amount) = palette(ITERS, 1);

    w.mine(u1_address, &colors_a_amount, None);
    w.mint(HASH_A, u1_address, &by_miner(u1_address, colors_a_indexes), None);
    w.mint(HASH_A, u1_address, &SortedMap::new(), Some(16));

    w.mine(u1_address, &colors_b_amount, Some(u2_address));
    w.mint(HASH_B, u2_address, &by_miner(u1_address, colors_b_indexes), None);
    w.mint(HASH_B, u2_address, &SortedMap::new(), Some(16));

    let glyph_a = Offer::Glyph(Hash32(HASH_A));
    let glyph_b = Offer::Glyph(Hash32(HASH_B));

    w.post(glyph_a, glyph_b).unwrap();

    w.get(glyph_a, Some(glyph_b)).unwrap();

    w.delete(glyph_a, Some(glyph_b)).unwrap();

    assert_eq!(w.get(glyph_a, Some(glyph_b)), Err(Error::NotFound));

    assert_eq!(w.ledger.balance(&w.this), 0i128);

    assert_eq!(w.ledger.balance(&u1_address), 9980i128);
}

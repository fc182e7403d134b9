use colorglyph::contract::ColorGlyph;
use colorglyph::glyphs::{glyph_record, glyph_store, paint};
use colorglyph::sorted_map::SortedMap;
use colorglyph::storage::{read_glyph_minter, read_glyph_owner, Storage};
use colorglyph::types::{Action, Address, Error, Event, Failure, GlyphColors, Hash32};
use colorglyph::utils::color_to_rgb;
use soroban_sdk::Env;

const HASH_A: [u8; 32] = [
    224, 179, 165, 100, 67, 84, 141, 170, 240, 57, 16, 144, 197, 150, 233, 228, 182, 98, 154, 0,
    158, 162, 216, 176, 66, 231, 63, 61, 145, 126, 165, 159,
];

fn account(n: u8) -> Address {
    Address { contract: false, id: [n; 32] }
}

fn contract_address(n: u8) -> Address {
    Address { contract: true, id: [n; 32] }
}

fn colors_for(miner: Address) -> (GlyphColors, SortedMap<u32, u32>) {
    let mut indexes: SortedMap<u32, Vec<u32>> = SortedMap::new();
    let mut amounts: SortedMap<u32, u32> = SortedMap::new();
    for i in 0..10u32 {
        let hex = (16777215u64 * i as u64 / 10) as u32;
        indexes.set(hex, vec![i]);
        amounts.set(hex, 1);
    }
    let mut colors: GlyphColors = SortedMap::new();
    colors.set(miner, indexes);
    (colors, amounts)
}

fn initialized() -> Storage {
    let mut storage = Storage::new();
    ColorGlyph::initialize(&mut storage, account(1), contract_address(200), account(9), 1).unwrap();
    storage
}

#[test]
fn color_to_rgb_takes_the_low_three_bytes() {
    assert_eq!(color_to_rgb(0x00ff_8040), [0x40, 0x80, 0xff]);
    assert_eq!(color_to_rgb(0x1234_5678), [0x78, 0x56, 0x34]);
}

#[test]
fn painting_fills_unpainted_pixels_white() {
    let mut inner: SortedMap<u32, Vec<u32>> = SortedMap::new();
    inner.set(0x00_01_02_03, vec![2]);
    let mut colors: GlyphColors = SortedMap::new();
    colors.set(account(1), inner);
    let (data, last) = paint(&colors).unwrap();
    assert_eq!(last, 8);
    assert_eq!(&data[..9], &[255, 255, 255, 255, 255, 255, 1, 2, 3]);
}

#[test]
fn minting_in_steps_then_finishing() {
    let env = Env::default();
    let mut storage = initialized();
    let (colors, amounts) = colors_for(account(1));
    ColorGlyph::colors_mine(&mut storage, account(1), &amounts, None, None).unwrap();
    let actions =
        ColorGlyph::glyph_mint(&mut storage, &env, Hash32(HASH_A), account(1), Some(account(2)), &colors, None)
            .unwrap();
    assert_eq!(actions, vec![Action::Publish(Event::Minting { minter: account(1) })]);
    assert_eq!(read_glyph_owner(&storage, &Hash32(HASH_A)), Some(account(2)));
    assert_eq!(ColorGlyph::color_balance(&storage, account(1), 0, None), 0);
    // The owner now building the glyph must authorize going on.
    let actions = ColorGlyph::glyph_mint(
        &mut storage,
        &env,
        Hash32(HASH_A),
        account(1),
        None,
        &SortedMap::new(),
        Some(16),
    )
    .unwrap();
    assert_eq!(
        actions,
        vec![
            Action::RequireAuth(account(2)),
            Action::Publish(Event::Minted { minter: account(1), to: None, hash: Hash32(HASH_A) }),
        ]
    );
    assert_eq!(read_glyph_owner(&storage, &Hash32(HASH_A)), Some(account(1)));
    assert_eq!(read_glyph_minter(&storage, &Hash32(HASH_A)), Some(account(1)));
    let glyph = ColorGlyph::glyph_get(&storage, Hash32(HASH_A)).unwrap();
    assert_eq!(glyph.width, 16);
    assert_eq!(glyph.length, 10);
}

#[test]
fn a_finished_glyph_cannot_be_minted_again() {
    let env = Env::default();
    let mut storage = initialized();
    let (colors, amounts) = colors_for(account(1));
    ColorGlyph::colors_mine(&mut storage, account(1), &amounts, None, None).unwrap();
    ColorGlyph::glyph_mint(&mut storage, &env, Hash32(HASH_A), account(1), None, &colors, Some(16)).unwrap();
    assert_eq!(
        ColorGlyph::glyph_mint(&mut storage, &env, Hash32(HASH_A), account(3), None, &SortedMap::new(), None),
        Err(Failure::Refused(Error::NotEmpty))
    );
}

#[test]
fn a_wrong_hash_is_refused_and_nothing_is_spent() {
    let env = Env::default();
    let mut storage = initialized();
    let (colors, amounts) = colors_for(account(1));
    ColorGlyph::colors_mine(&mut storage, account(1), &amounts, None, None).unwrap();
    assert_eq!(
        ColorGlyph::glyph_mint(&mut storage, &env, Hash32([3; 32]), account(1), None, &colors, Some(16)),
        Err(Failure::Refused(Error::NotPermitted))
    );
    assert_eq!(ColorGlyph::color_balance(&storage, account(1), 0, None), 1);
    assert_eq!(read_glyph_owner(&storage, &Hash32([3; 32])), None);
}

#[test]
fn minting_without_the_colors_traps() {
    let env = Env::default();
    let mut storage = initialized();
    let (colors, _) = colors_for(account(1));
    assert_eq!(
        ColorGlyph::glyph_mint(&mut storage, &env, Hash32(HASH_A), account(1), None, &colors, Some(16)),
        Err(Failure::Trapped)
    );
}

#[test]
fn scraping_gives_the_colors_back_and_frees_the_glyph() {
    let env = Env::default();
    let mut storage = initialized();
    let (colors, amounts) = colors_for(account(1));
    ColorGlyph::colors_mine(&mut storage, account(1), &amounts, None, None).unwrap();
    ColorGlyph::glyph_mint(&mut storage, &env, Hash32(HASH_A), account(1), None, &colors, Some(16)).unwrap();
    let actions = ColorGlyph::glyph_scrape(&mut storage, Some(account(4)), Hash32(HASH_A)).unwrap();
    assert_eq!(
        actions,
        vec![
            Action::RequireAuth(account(1)),
            Action::Publish(Event::ScrapeGlyph {
                owner: account(1),
                to: Some(account(4)),
                hash: Hash32(HASH_A),
            }),
        ]
    );
    assert_eq!(ColorGlyph::color_balance(&storage, account(4), 0, Some(account(1))), 1);
    let glyph = ColorGlyph::glyph_get(&storage, Hash32(HASH_A)).unwrap();
    assert_eq!((glyph.width, glyph.length, glyph.colors.len()), (0, 0, 0));
    // The colors went to another holder, so the owner cannot mint again.
    assert_eq!(
        ColorGlyph::glyph_mint(&mut storage, &env, Hash32(HASH_A), account(1), None, &colors, Some(16)),
        Err(Failure::Trapped)
    );
}

#[test]
fn scraping_stops_after_the_payment_limit() {
    let env = Env::default();
    let mut storage = initialized();
    ColorGlyph::update(&mut storage, None, None, None, None, Some(4), None, None, None).unwrap();
    let (colors, amounts) = colors_for(account(1));
    ColorGlyph::colors_mine(&mut storage, account(1), &amounts, None, None).unwrap();
    ColorGlyph::glyph_mint(&mut storage, &env, Hash32(HASH_A), account(1), None, &colors, None).unwrap();
    ColorGlyph::glyph_scrape(&mut storage, None, Hash32(HASH_A)).unwrap();
    let glyph = ColorGlyph::glyph_get(&storage, Hash32(HASH_A)).unwrap();
    assert_eq!(glyph.colors.len(), 1);
    assert_eq!(glyph.colors.value_at(0).len(), 6);
    assert_eq!(ColorGlyph::color_balance(&storage, account(1), 0, None), 1);
}

#[test]
fn glyphs_change_hands_with_their_owners_consent() {
    let env = Env::default();
    let mut storage = initialized();
    let (colors, amounts) = colors_for(account(1));
    ColorGlyph::colors_mine(&mut storage, account(1), &amounts, None, None).unwrap();
    ColorGlyph::glyph_mint(&mut storage, &env, Hash32(HASH_A), account(1), None, &colors, Some(16)).unwrap();
    let actions = ColorGlyph::glyph_transfer(&mut storage, account(5), Hash32(HASH_A)).unwrap();
    assert_eq!(
        actions,
        vec![
            Action::RequireAuth(account(1)),
            Action::Publish(Event::TransferGlyph { to: account(5), hash: Hash32(HASH_A) }),
        ]
    );
    assert_eq!(read_glyph_owner(&storage, &Hash32(HASH_A)), Some(account(5)));
    assert_eq!(
        ColorGlyph::glyph_transfer(&mut storage, account(5), Hash32([3; 32])),
        Err(Failure::Refused(Error::NotFound))
    );
    assert!(ColorGlyph::glyph_get(&storage, Hash32([3; 32])).is_err());
}

#[test]
fn recording_a_glyph_keeps_its_first_minter() {
    let mut storage = initialized();
    let h = Hash32([5; 32]);
    glyph_record(&mut storage, h, account(1), None, SortedMap::new(), 3, 4);
    assert_eq!(read_glyph_owner(&storage, &h), Some(account(1)));
    assert_eq!(read_glyph_minter(&storage, &h), Some(account(1)));
    glyph_record(&mut storage, h, account(2), Some(account(3)), SortedMap::new(), 7, 9);
    assert_eq!(read_glyph_owner(&storage, &h), Some(account(3)));
    assert_eq!(read_glyph_minter(&storage, &h), Some(account(1)));
    let glyph = ColorGlyph::glyph_get(&storage, h).unwrap();
    assert_eq!((glyph.width, glyph.length), (7, 9));
}

#[test]
fn scraping_gives_back_what_minting_spent() {
    let env = Env::default();
    let mut storage = initialized();
    let (colors, amounts) = colors_for(account(1));
    ColorGlyph::colors_mine(&mut storage, account(1), &amounts, None, None).unwrap();
    ColorGlyph::colors_mine(&mut storage, account(1), &amounts, None, None).unwrap();
    let before: Vec<u32> = (0..amounts.len())
        .map(|i| ColorGlyph::color_balance(&storage, account(1), amounts.key_at(i), None))
        .collect();
    assert_eq!(before, vec![2; 10]);
    ColorGlyph::glyph_mint(&mut storage, &env, Hash32(HASH_A), account(1), None, &colors, Some(16)).unwrap();
    assert_eq!(ColorGlyph::color_balance(&storage, account(1), amounts.key_at(3), None), 1);
    ColorGlyph::glyph_scrape(&mut storage, None, Hash32(HASH_A)).unwrap();
    let after: Vec<u32> = (0..amounts.len())
        .map(|i| ColorGlyph::color_balance(&storage, account(1), amounts.key_at(i), None))
        .collect();
    assert_eq!(after, before);
}

#[test]
fn storing_one_pixel_records_owner_minter_and_glyph() {
    let env = Env::default();
    let mut storage = initialized();
    let m = account(1);
    let mut inner: SortedMap<u32, Vec<u32>> = SortedMap::new();
    inner.set(0x00AA_BBCC, vec![0]);
    let mut colors: GlyphColors = SortedMap::new();
    colors.set(m, inner);
    let h = glyph_store(&mut storage, &env, m, None, colors, 1).unwrap();
    let expected: [u8; 32] = [
        97, 84, 64, 65, 53, 190, 66, 199, 152, 213, 183, 173, 158, 199, 65, 53, 101, 18, 199, 19,
        169, 231, 127, 182, 123, 167, 175, 250, 112, 180, 112, 177,
    ];
    assert_eq!(h, Hash32(expected));
    assert_eq!(read_glyph_owner(&storage, &h), Some(m));
    assert_eq!(read_glyph_minter(&storage, &h), Some(m));
    let glyph = ColorGlyph::glyph_get(&storage, h).unwrap();
    assert_eq!((glyph.width, glyph.length), (1, 1));
    assert_eq!(glyph.colors.key_at(0), m);
    assert_eq!(glyph.colors.value_at(0).key_at(0), 0x00AA_BBCC);
    assert_eq!(glyph.colors.value_at(0).value_at(0), &vec![0]);
}

#[test]
fn a_partial_scrape_keeps_balance_plus_glyph_pixels() {
    let env = Env::default();
    let mut storage = initialized();
    ColorGlyph::update(&mut storage, None, None, None, None, Some(3), None, None, None).unwrap();
    let (colors, amounts) = colors_for(account(1));
    ColorGlyph::colors_mine(&mut storage, account(1), &amounts, None, None).unwrap();
    ColorGlyph::glyph_mint(&mut storage, &env, Hash32(HASH_A), account(1), None, &colors, None).unwrap();
    let held = |storage: &Storage, color: u32| -> u32 {
        let glyph = ColorGlyph::glyph_get(storage, Hash32(HASH_A)).unwrap();
        let in_glyph = match glyph.colors.get(&account(1)) {
            Some(inner) => inner.get(&color).map(|v| v.len() as u32).unwrap_or(0),
            None => 0,
        };
        ColorGlyph::color_balance(storage, account(1), color, None) + in_glyph
    };
    let before: Vec<u32> = (0..amounts.len()).map(|i| held(&storage, amounts.key_at(i))).collect();
    ColorGlyph::glyph_scrape(&mut storage, None, Hash32(HASH_A)).unwrap();
    let after: Vec<u32> = (0..amounts.len()).map(|i| held(&storage, amounts.key_at(i))).collect();
    assert_eq!(before, vec![1; 10]);
    assert_eq!(after, before);
    assert_eq!(ColorGlyph::color_balance(&storage, account(1), amounts.key_at(2), None), 1);
    assert_eq!(ColorGlyph::color_balance(&storage, account(1), amounts.key_at(3), None), 0);
}

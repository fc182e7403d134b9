use colorglyph::trades::ColorGlyphContract;
use colorglyph::types::Address;
use soroban_sdk::Env;

fn account(n: u8) -> Address {
    Address { contract: false, id: [n; 32] }
}

#[test]
fn trades_test_test() {
    let env = Env::default();
    let u1 = account(1);
    let mut contract = ColorGlyphContract::new();

    let hash = contract.mint(&env, u1);

    let expected: [u8; 32] = [
        0xa6, 0x18, 0x87, 0x10, 0xc0, 0x9c, 0xfb, 0xc7, 0x73, 0x83, 0xee, 0x05, 0x88, 0xde, 0xc2,
        0xf7, 0xaf, 0xfa, 0x6e, 0x03, 0xe7, 0x8a, 0xa9, 0x00, 0xe9, 0xae, 0x59, 0x7a, 0x8d, 0x8f,
        0xab, 0xa3,
    ];
    assert_eq!(hash.0, expected);

    let count: u128 = 1;
    let (n, minted) = contract.get(1).unwrap();
    assert_eq!(n, count);
    assert_eq!(minted.glyph.width, 3);
    assert_eq!(minted.glyph.colors, vec![0x01, 0x00, 0x01, 0x00, 0x01, 0x00, 0x01, 0x00, 0x01]);
    assert_eq!(minted.owner, u1);
    assert_eq!(minted.minter, u1);
    assert_eq!(minted.miners.len(), 1);
    assert_eq!(minted.miners.key_at(0), u1);
    assert_eq!(*minted.miners.value_at(0), 9);
}

#[test]
fn each_mint_takes_the_next_count() {
    let env = Env::default();
    let mut contract = ColorGlyphContract::new();
    assert!(contract.get(0).is_none());
    assert!(contract.get(1).is_none());
    let first = contract.mint(&env, account(1));
    let second = contract.mint(&env, account(2));
    assert_eq!(first, second);
    let (n, minted) = contract.get(2).unwrap();
    assert_eq!(n, 2);
    assert_eq!(minted.owner, account(2));
    assert_eq!(contract.get(1).unwrap().1.owner, account(1));
    assert!(contract.get(3).is_none());
}

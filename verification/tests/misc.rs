use colorglyph::offers::{miner_royalty_amount, minter_royalty_amount};

#[test]
fn misc_test_mootz_math() {
    let minter_royalty_rate: i128 = 3;
    let miner_royalty_rate: i128 = 2;

    let amount = 16i128;
    let total_pixels = 10u32;
    let miner_pixels = 10u32;

    let res1 = minter_royalty_amount(minter_royalty_rate, amount).unwrap();
    println!("{}", res1);
    // 3% of 16 is 0.48, rounded up.
    assert_eq!(res1, 1);

    let res2 = miner_royalty_amount(miner_royalty_rate, amount, miner_pixels, total_pixels).unwrap();
    println!("{}", res2);
    // 2% of 16 is 0.32, rounded up to 1, all of which goes to the one miner.
    assert_eq!(res2, 1);
}

#[test]
fn misc_test_test_mootz_math() {
    let maker_royalty_rate: i128 = 3;
    let miner_royalty_rate: i128 = 2;

    let amount = 16i128;
    let total_pixels = 10u32;
    let miner_pixels = 10u32;

    let res1 = minter_royalty_amount(maker_royalty_rate, amount).unwrap();
    println!("{}", res1);
    assert_eq!(res1, 1);

    let res2 = miner_royalty_amount(miner_royalty_rate, amount, miner_pixels, total_pixels).unwrap();
    println!("{}", res2);
    assert_eq!(res2, 1);
}

#[test]
fn royalties_round_up_and_share_by_pixels() {
    // 3% of 100.
    assert_eq!(minter_royalty_amount(3, 100), Some(3));
    // 3% of 101 is 3.03, rounded up.
    assert_eq!(minter_royalty_amount(3, 101), Some(4));
    // 2% of 100 is 2; a miner with 3 of 10 pixels gets 0.6 of it, rounded up.
    assert_eq!(miner_royalty_amount(2, 100, 3, 10), Some(1));
    // A glyph with no pixels leaves the share undefined.
    assert_eq!(miner_royalty_amount(2, 100, 3, 0), None);
    // Negative amounts round toward zero, which is up.
    assert_eq!(minter_royalty_amount(3, -101), Some(-3));
    // A product that does not fit gives nothing.
    assert_eq!(minter_royalty_amount(i128::MAX, 2), None);
}

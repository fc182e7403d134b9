use colorglyph::contract::ColorGlyph;
use colorglyph::sorted_map::SortedMap;
use colorglyph::storage::Storage;
use colorglyph::types::{Action, Address, Error, Failure};

fn account(n: u8) -> Address {
    Address { contract: false, id: [n; 32] }
}

fn contract_address(n: u8) -> Address {
    Address { contract: true, id: [n; 32] }
}

/// A token ledger standing for the token contract: transfers move balances
/// and fail on a negative amount or an overdraft.
struct Ledger {
    balances: Vec<(Address, i128)>,
}

impl Ledger {
    fn balance(&self, a: &Address) -> i128 {
        self.balances.iter().find(|(b, _)| b == a).map(|(_, v)| *v).unwrap_or(0)
    }

    fn set(&mut self, a: &Address, v: i128) {
        match self.balances.iter_mut().find(|(b, _)| b == a) {
            Some(entry) => entry.1 = v,
            None => self.balances.push((*a, v)),
        }
    }

    fn apply(&mut self, token: &Address, actions: &[Action]) {
        for action in actions {
            if let Action::Transfer { token: t, from, to, amount } = action {
                assert_eq!(t, token);
                assert!(*amount >= 0, "negative amount");
                let from_balance = self.balance(from);
                assert!(from_balance >= *amount, "balance is not sufficient to spend");
                self.set(from, from_balance - amount);
                let to_balance = self.balance(to);
                self.set(to, to_balance + amount);
            }
        }
    }
}

#[test]
fn colors_test() {
    let mut storage = Storage::new();

    let token_address = contract_address(200);
    let u1_address = account(1);
    let u2_address = account(2);
    let u3_address = account(3);
    let fee_address = account(4);

    let mut ledger = Ledger { balances: Vec::new() };
    ledger.set(&u1_address, 10_000);
    ledger.set(&u2_address, 10_000);
    ledger.set(&u3_address, 10_000);

    ColorGlyph::initialize(&mut storage, u1_address, token_address, fee_address, 1).unwrap();

    let mut colors: SortedMap<u32, u32> = SortedMap::new();
    for i in 0..=255 {
        colors.set(i, 1);
    }

    let actions = ColorGlyph::colors_mine(&mut storage, u1_address, &colors, None, None).unwrap();
    ledger.apply(&token_address, &actions);

    let color = ColorGlyph::color_balance(&storage, u1_address, 0, None);
    assert_eq!(color, 1);

    let actions =
        ColorGlyph::colors_mine(&mut storage, u2_address, &colors, None, Some(u1_address)).unwrap();
    ledger.apply(&token_address, &actions);

    let color1 = ColorGlyph::color_balance(&storage, u1_address, 0, None);
    let color2 = ColorGlyph::color_balance(&storage, u1_address, 0, Some(u2_address));
    assert_eq!(color1 + color2, 2);

    let actions = ColorGlyph::colors_transfer(
        &mut storage,
        u1_address,
        u3_address,
        &vec![(u1_address, 0, 1), (u2_address, 0, 1)],
    )
    .unwrap();
    ledger.apply(&token_address, &actions);

    let color0 = ColorGlyph::color_balance(&storage, u3_address, u32::MAX, Some(u1_address));
    let color1 = ColorGlyph::color_balance(&storage, u3_address, 0, Some(u1_address));
    let color2 = ColorGlyph::color_balance(&storage, u3_address, 0, Some(u2_address));

    assert_eq!(color0, 0);
    assert_eq!(color1 + color2, 2);

    assert_eq!(ledger.balance(&u1_address), 10_000 - 256);
    assert_eq!(ledger.balance(&u2_address), 10_000 - 256);
    assert_eq!(ledger.balance(&fee_address), 512);
}

#[test]
fn mining_asks_the_source_and_pays_the_fee() {
    let mut storage = Storage::new();
    let token = contract_address(200);
    let fee = account(4);
    ColorGlyph::initialize(&mut storage, account(1), token, fee, 3).unwrap();
    let mut colors: SortedMap<u32, u32> = SortedMap::new();
    colors.set(7, 2);
    colors.set(9, 5);
    let actions = ColorGlyph::colors_mine(&mut storage, account(1), &colors, None, None).unwrap();
    assert_eq!(
        actions,
        vec![
            Action::RequireAuth(account(1)),
            Action::Transfer { token, from: account(1), to: fee, amount: 21 },
        ]
    );
    assert_eq!(ColorGlyph::color_balance(&storage, account(1), 9, None), 5);
}

#[test]
fn mining_before_initializing_is_refused() {
    let mut storage = Storage::new();
    let mut colors: SortedMap<u32, u32> = SortedMap::new();
    colors.set(1, 1);
    assert_eq!(
        ColorGlyph::colors_mine(&mut storage, account(1), &colors, None, None),
        Err(Failure::Refused(Error::NotInitialized))
    );
    assert_eq!(ColorGlyph::color_balance(&storage, account(1), 1, None), 0);
}

#[test]
fn mining_past_the_largest_balance_traps_and_changes_nothing() {
    let mut storage = Storage::new();
    ColorGlyph::initialize(&mut storage, account(1), contract_address(200), account(4), 1).unwrap();
    let mut colors: SortedMap<u32, u32> = SortedMap::new();
    colors.set(1, u32::MAX);
    ColorGlyph::colors_mine(&mut storage, account(1), &colors, None, None).unwrap();
    let mut more: SortedMap<u32, u32> = SortedMap::new();
    more.set(0, 5);
    more.set(1, 1);
    assert_eq!(
        ColorGlyph::colors_mine(&mut storage, account(1), &more, None, None),
        Err(Failure::Trapped)
    );
    assert_eq!(ColorGlyph::color_balance(&storage, account(1), 0, None), 0);
    assert_eq!(ColorGlyph::color_balance(&storage, account(1), 1, None), u32::MAX);
}

#[test]
fn transferring_more_than_held_is_refused() {
    let mut storage = Storage::new();
    ColorGlyph::initialize(&mut storage, account(1), contract_address(200), account(4), 1).unwrap();
    let mut colors: SortedMap<u32, u32> = SortedMap::new();
    colors.set(5, 2);
    ColorGlyph::colors_mine(&mut storage, account(1), &colors, None, None).unwrap();
    assert_eq!(
        ColorGlyph::colors_transfer(
            &mut storage,
            account(1),
            account(2),
            &vec![(account(1), 5, 1), (account(1), 5, 2)],
        ),
        Err(Failure::Refused(Error::NotPermitted))
    );
    assert_eq!(ColorGlyph::color_balance(&storage, account(1), 5, None), 2);
    assert_eq!(ColorGlyph::color_balance(&storage, account(2), 5, Some(account(1))), 0);
    ColorGlyph::colors_transfer(&mut storage, account(1), account(2), &vec![(account(1), 5, 1), (account(1), 5, 1)])
        .unwrap();
    assert_eq!(ColorGlyph::color_balance(&storage, account(1), 5, None), 0);
    assert_eq!(ColorGlyph::color_balance(&storage, account(2), 5, Some(account(1))), 2);
}

#[test]
fn initializing_twice_is_refused_and_update_needs_the_owner() {
    let mut storage = Storage::new();
    assert_eq!(
        ColorGlyph::update(&mut storage, None, None, None, None, Some(3), None, None, None),
        Err(Failure::Refused(Error::NotInitialized))
    );
    let actions =
        ColorGlyph::initialize(&mut storage, account(1), contract_address(200), account(4), 1).unwrap();
    assert_eq!(actions, vec![Action::RequireAuth(account(1)), Action::ExtendInstanceTtl(535679)]);
    assert_eq!(
        ColorGlyph::initialize(&mut storage, account(2), contract_address(200), account(4), 1),
        Err(Failure::Refused(Error::NotEmpty))
    );
    let actions = ColorGlyph::update(
        &mut storage,
        Some(account(2)),
        None,
        None,
        None,
        Some(3),
        None,
        None,
        None,
    )
    .unwrap();
    assert_eq!(actions, vec![Action::RequireAuth(account(1))]);
    let config = storage.config.unwrap();
    assert_eq!(config.owner_address, account(2));
    assert_eq!(config.max_payment_count, 3);
    assert_eq!(config.minter_royalty_rate, 3);
    assert_eq!(config.miner_royalty_rate, 2);
}

#[test]
fn moving_colors_between_two_holders_keeps_their_sum() {
    let mut storage = Storage::new();
    ColorGlyph::initialize(&mut storage, account(1), contract_address(200), account(4), 1).unwrap();
    let mut colors: SortedMap<u32, u32> = SortedMap::new();
    colors.set(5, 7);
    ColorGlyph::colors_mine(&mut storage, account(1), &colors, None, None).unwrap();
    ColorGlyph::colors_transfer(&mut storage, account(1), account(2), &vec![(account(1), 5, 3)]).unwrap();
    let from = ColorGlyph::color_balance(&storage, account(1), 5, None);
    let to = ColorGlyph::color_balance(&storage, account(2), 5, Some(account(1)));
    assert_eq!((from, to), (4, 3));
}

#[test]
fn moving_colors_to_oneself_credits_without_debiting() {
    let mut storage = Storage::new();
    ColorGlyph::initialize(&mut storage, account(1), contract_address(200), account(4), 1).unwrap();
    let mut colors: SortedMap<u32, u32> = SortedMap::new();
    colors.set(5, 2);
    ColorGlyph::colors_mine(&mut storage, account(1), &colors, None, None).unwrap();
    ColorGlyph::colors_transfer(&mut storage, account(1), account(1), &vec![(account(1), 5, 1)]).unwrap();
    assert_eq!(ColorGlyph::color_balance(&storage, account(1), 5, None), 3);
}

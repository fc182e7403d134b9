//! The contract's entry points. Each takes the contract's storage and gives
//! back what the host must do (authorizations, transfers, events), or why the
//! invocation fails; a failed invocation leaves the storage as it was.

use vstd::prelude::*;
use crate::order::Ordered;
use crate::sorted_map::SortedMap;
use crate::storage::{
    Storage, StorageView, read_color, read_glyph_or_error, write_glyph_owner, read_fee_address, read_mine_multiplier, read_owner_address,
    read_token_address, write_color, write_fee_address, write_max_entry_lifetime,
    write_max_payment_count, write_mine_multiplier, write_miner_royalty_rate,
    write_minter_royalty_rate, write_owner_address, write_token_address,
};
use crate::types::{
    Action, Address, ColorKey, Config, Error, Event, Failure, Glyph, GlyphColors, Hash32, Offer,
    colors_wf,
};
use crate::glyphs::{glyph_verify_ownership, mint_into, mint_outcome, scrape_into, scrape_outcome};
use crate::offers::{delete_outcome, get_result, offer_delete, offer_post, offers_get, post_outcome};
use crate::laws::{exchange_wf, law_delete_keeps_books, law_mint_leaves_offers, law_post_keeps_books,
    law_scrape_keeps_books};

verus! {

/// The contract.
pub struct ColorGlyph;

/// What an invocation should end with: the storage and the actions of a
/// success, or a failure.
pub type Outcome = Result<(StorageView, Seq<Action>), Failure>;

/// `r` and the storage after the invocation agree with the expected outcome;
/// a failure leaves the storage unchanged.
pub open spec fn settles(
    r: Result<Vec<Action>, Failure>,
    before: StorageView,
    after: StorageView,
    expected: Outcome,
) -> bool {
    match expected {
        Ok((s, a)) => r is Ok && r->Ok_0@ == a && after == s,
        Err(f) => r is Err && r->Err_0 == f && after == before,
    }
}

pub open spec fn key(miner: Address, owner: Address, color: u32) -> ColorKey {
    ColorKey { miner, owner, color }
}

pub open spec fn balance_in(m: Map<ColorKey, u32>, k: ColorKey) -> u32 {
    if m.contains_key(k) {
        m[k]
    } else {
        0
    }
}

/// The sum of the amounts of a list of (color, amount) entries.
pub open spec fn total(c: Seq<(u32, u32)>) -> int
    decreases c.len(),
{
    if c.len() == 0 {
        0
    } else {
        total(c.drop_last()) + c.last().1
    }
}

/// The balances after crediting `to` with each (color, amount) of `c` mined by `miner`.
pub open spec fn credited(m: Map<ColorKey, u32>, miner: Address, to: Address, c: Seq<(u32, u32)>) -> Map<
    ColorKey,
    u32,
>
    decreases c.len(),
{
    if c.len() == 0 {
        m
    } else {
        let k = key(miner, to, c.last().0);
        credited(m, miner, to, c.drop_last()).insert(k, (balance_in(m, k) + c.last().1) as u32)
    }
}

/// Some credit of `c` does not fit in a balance, or the amounts do not sum to a `u32`.
pub open spec fn mine_overflows(m: Map<ColorKey, u32>, miner: Address, to: Address, c: Seq<(u32, u32)>) -> bool {
    ||| exists|i: int|
        0 <= i < c.len() && balance_in(m, key(miner, to, (#[trigger] c[i]).0)) + c[i].1 > u32::MAX
    ||| total(c) > u32::MAX
}

/// Mining: `source` pays the fee account `mine_multiplier` tokens for each
/// color mined, and `to` (or `source`) is credited with the colors as mined by
/// `miner` (or `source`).
pub open spec fn mine_outcome(
    s: StorageView,
    source: Address,
    c: Seq<(u32, u32)>,
    miner: Option<Address>,
    to: Option<Address>,
) -> Outcome {
    let miner = match miner {
        Some(a) => a,
        None => source,
    };
    let to = match to {
        Some(a) => a,
        None => source,
    };
    if mine_overflows(s.colors, miner, to, c) {
        Err(Failure::Trapped)
    } else {
        match s.config {
            None => Err(Failure::Refused(Error::NotInitialized)),
            Some(cfg) => {
                let fee = total(c) * cfg.mine_multiplier;
                if fee < i128::MIN || fee > i128::MAX {
                    Err(Failure::Trapped)
                } else {
                    Ok(
                        (
                            StorageView { colors: credited(s.colors, miner, to, c), ..s },
                            seq![
                                Action::RequireAuth(source),
                                Action::Transfer {
                                    token: cfg.token_address,
                                    from: source,
                                    to: cfg.fee_address,
                                    amount: fee as i128,
                                },
                            ],
                        ),
                    )
                }
            },
        }
    }
}

/// The balances after moving each (miner, color, amount) of `items` in turn
/// from `from` to `to`; the balance of `to` is read before that of `from` is
/// written. An item larger than the balance of `from` is refused.
pub open spec fn transferred(
    m: Map<ColorKey, u32>,
    from: Address,
    to: Address,
    items: Seq<(Address, u32, u32)>,
) -> Result<Map<ColorKey, u32>, Failure>
    decreases items.len(),
{
    if items.len() == 0 {
        Ok(m)
    } else {
        match transferred(m, from, to, items.drop_last()) {
            Err(f) => Err(f),
            Ok(m1) => {
                let (miner, color, amount) = items.last();
                let kf = key(miner, from, color);
                let kt = key(miner, to, color);
                let fa = balance_in(m1, kf);
                let ta = balance_in(m1, kt);
                if amount > fa {
                    Err(Failure::Refused(Error::NotPermitted))
                } else if ta + amount > u32::MAX {
                    Err(Failure::Trapped)
                } else {
                    Ok(m1.insert(kf, (fa - amount) as u32).insert(kt, (ta + amount) as u32))
                }
            },
        }
    }
}

pub open spec fn transfer_outcome(
    s: StorageView,
    from: Address,
    to: Address,
    items: Seq<(Address, u32, u32)>,
) -> Outcome {
    match transferred(s.colors, from, to, items) {
        Err(f) => Err(f),
        Ok(m) => Ok((StorageView { colors: m, ..s }, seq![Action::RequireAuth(from)])),
    }
}

pub open spec fn initial_config(
    owner_address: Address,
    token_address: Address,
    fee_address: Address,
    mine_multiplier: i128,
) -> Config {
    Config {
        owner_address,
        token_address,
        fee_address,
        max_entry_lifetime: 535679,
        max_payment_count: 15,
        mine_multiplier,
        minter_royalty_rate: 3,
        miner_royalty_rate: 2,
    }
}

pub open spec fn initialize_outcome(
    s: StorageView,
    owner_address: Address,
    token_address: Address,
    fee_address: Address,
    mine_multiplier: i128,
) -> Outcome {
    if s.config is Some {
        Err(Failure::Refused(Error::NotEmpty))
    } else {
        Ok(
            (
                StorageView {
                    config: Some(
                        initial_config(owner_address, token_address, fee_address, mine_multiplier),
                    ),
                    ..s
                },
                seq![Action::RequireAuth(owner_address), Action::ExtendInstanceTtl(535679)],
            ),
        )
    }
}

pub open spec fn or_keep<T>(new: Option<T>, old: T) -> T {
    match new {
        Some(v) => v,
        None => old,
    }
}

pub open spec fn update_outcome(
    s: StorageView,
    owner_address: Option<Address>,
    token_address: Option<Address>,
    fee_address: Option<Address>,
    max_entry_lifetime: Option<u32>,
    max_payment_count: Option<u32>,
    mine_multiplier: Option<i128>,
    minter_royalty_rate: Option<i128>,
    miner_royalty_rate: Option<i128>,
) -> Outcome {
    match s.config {
        None => Err(Failure::Refused(Error::NotInitialized)),
        Some(c) => Ok(
            (
                StorageView {
                    config: Some(
                        Config {
                            owner_address: or_keep(owner_address, c.owner_address),
                            token_address: or_keep(token_address, c.token_address),
                            fee_address: or_keep(fee_address, c.fee_address),
                            max_entry_lifetime: or_keep(max_entry_lifetime, c.max_entry_lifetime),
                            max_payment_count: or_keep(max_payment_count, c.max_payment_count),
                            mine_multiplier: or_keep(mine_multiplier, c.mine_multiplier),
                            minter_royalty_rate: or_keep(minter_royalty_rate, c.minter_royalty_rate),
                            miner_royalty_rate: or_keep(miner_royalty_rate, c.miner_royalty_rate),
                        },
                    ),
                    ..s
                },
                seq![Action::RequireAuth(c.owner_address)],
            ),
        ),
    }
}

pub open spec fn upgrade_outcome(s: StorageView, hash: Hash32) -> Outcome {
    match s.config {
        None => Err(Failure::Refused(Error::NotInitialized)),
        Some(c) => Ok(
            (s, seq![Action::RequireAuth(c.owner_address), Action::UpdateContractWasm(hash)]),
        ),
    }
}

pub proof fn lemma_total_grows(c: Seq<(u32, u32)>, i: int)
    requires
        0 <= i <= c.len(),
    ensures
        total(c.take(i)) <= total(c),
    decreases c.len() - i,
{
    if i < c.len() {
        lemma_total_grows(c, i + 1);
        assert(c.take(i + 1).drop_last() =~= c.take(i));
    } else {
        assert(c.take(i) =~= c);
    }
}

/// Crediting leaves alone every key that no entry names.
pub proof fn lemma_credited_other(
    m: Map<ColorKey, u32>,
    miner: Address,
    to: Address,
    c: Seq<(u32, u32)>,
    k: ColorKey,
)
    requires
        forall|j: int| 0 <= j < c.len() ==> key(miner, to, (#[trigger] c[j]).0) != k,
    ensures
        credited(m, miner, to, c).contains_key(k) == m.contains_key(k),
        credited(m, miner, to, c)[k] == m[k],
    decreases c.len(),
{
    if c.len() > 0 {
        assert forall|j: int| 0 <= j < c.drop_last().len() implies key(
            miner,
            to,
            (#[trigger] c.drop_last()[j]).0,
        ) != k by {
            assert(c.drop_last()[j] == c[j]);
        }
        lemma_credited_other(m, miner, to, c.drop_last(), k);
    }
}

pub open spec fn glyph_transfer_outcome(s: StorageView, to: Address, hash: Hash32) -> Outcome {
    if !s.owners.contains_key(hash) {
        Err(Failure::Refused(Error::NotFound))
    } else {
        Ok(
            (
                StorageView { owners: s.owners.insert(hash, to), ..s },
                seq![
                    Action::RequireAuth(s.owners[hash]),
                    Action::Publish(Event::TransferGlyph { to, hash }),
                ],
            ),
        )
    }
}

/// Once a transfer fails, the rest of the list does not change the failure.
pub proof fn lemma_transferred_fails(
    m: Map<ColorKey, u32>,
    from: Address,
    to: Address,
    items: Seq<(Address, u32, u32)>,
    i: int,
)
    requires
        0 <= i <= items.len(),
        transferred(m, from, to, items.take(i)) is Err,
    ensures
        transferred(m, from, to, items) == transferred(m, from, to, items.take(i)),
    decreases items.len() - i,
{
    if i < items.len() {
        assert(items.take(i + 1).drop_last() =~= items.take(i));
        lemma_transferred_fails(m, from, to, items, i + 1);
    } else {
        assert(items.take(i) =~= items);
    }
}

impl ColorGlyph {
    pub fn initialize(
        storage: &mut Storage,
        owner_address: Address,
        token_address: Address,
        fee_address: Address,
        mine_multiplier: i128,
    ) -> (r: Result<Vec<Action>, Failure>)
        requires
            old(storage).wf(),
        ensures
            final(storage).wf(),
            exchange_wf(old(storage)@) ==> exchange_wf(final(storage)@),
            settles(
                r,
                old(storage)@,
                final(storage)@,
                initialize_outcome(old(storage)@, owner_address, token_address, fee_address, mine_multiplier),
            ),
    {
        if storage.config.is_some() {
            return Err(Failure::Refused(Error::NotEmpty));
        }
        let max_entry_lifetime: u32 = 12 * 60 * 24 * 31 - 1;
        let max_payment_count: u32 = 15;
        let minter_royalty_rate: i128 = 3;
        let miner_royalty_rate: i128 = 2;
        storage.config = Some(
            Config {
                owner_address,
                token_address,
                fee_address,
                max_entry_lifetime,
                max_payment_count,
                mine_multiplier,
                minter_royalty_rate,
                miner_royalty_rate,
            },
        );
        let mut actions: Vec<Action> = Vec::new();
        actions.push(Action::RequireAuth(owner_address));
        actions.push(Action::ExtendInstanceTtl(max_entry_lifetime));
        proof {
            assert(actions@ =~= seq![
                Action::RequireAuth(owner_address),
                Action::ExtendInstanceTtl(535679),
            ]);
        }
        Ok(actions)
    }

    pub fn update(
        storage: &mut Storage,
        owner_address: Option<Address>,
        token_address: Option<Address>,
        fee_address: Option<Address>,
        max_entry_lifetime: Option<u32>,
        max_payment_count: Option<u32>,
        mine_multiplier: Option<i128>,
        minter_royalty_rate: Option<i128>,
        miner_royalty_rate: Option<i128>,
    ) -> (r: Result<Vec<Action>, Failure>)
        requires
            old(storage).wf(),
        ensures
            final(storage).wf(),
            exchange_wf(old(storage)@) ==> exchange_wf(final(storage)@),
            settles(
                r,
                old(storage)@,
                final(storage)@,
                update_outcome(
                    old(storage)@,
                    owner_address,
                    token_address,
                    fee_address,
                    max_entry_lifetime,
                    max_payment_count,
                    mine_multiplier,
                    minter_royalty_rate,
                    miner_royalty_rate,
                ),
            ),
    {
        let owner = match read_owner_address(storage) {
            Ok(o) => o,
            Err(e) => {
                return Err(Failure::Refused(e));
            },
        };
        if let Some(owner) = owner_address {
            write_owner_address(storage, &owner);
        }
        if let Some(address) = token_address {
            write_token_address(storage, &address);
        }
        if let Some(address) = fee_address {
            write_fee_address(storage, &address);
        }
        if let Some(lifetime) = max_entry_lifetime {
            write_max_entry_lifetime(storage, &lifetime);
        }
        if let Some(count) = max_payment_count {
            write_max_payment_count(storage, &count);
        }
        if let Some(rate) = mine_multiplier {
            write_mine_multiplier(storage, &rate);
        }
        if let Some(rate) = minter_royalty_rate {
            write_minter_royalty_rate(storage, &rate);
        }
        if let Some(rate) = miner_royalty_rate {
            write_miner_royalty_rate(storage, &rate);
        }
        let mut actions: Vec<Action> = Vec::new();
        actions.push(Action::RequireAuth(owner));
        proof {
            assert(actions@ =~= seq![Action::RequireAuth(owner)]);
        }
        Ok(actions)
    }

    pub fn upgrade(storage: &Storage, hash: Hash32) -> (r: Result<Vec<Action>, Failure>)
        requires
            storage.wf(),
        ensures
            settles(r, storage@, storage@, upgrade_outcome(storage@, hash)),
    {
        let owner = match read_owner_address(storage) {
            Ok(o) => o,
            Err(e) => {
                return Err(Failure::Refused(e));
            },
        };
        let mut actions: Vec<Action> = Vec::new();
        actions.push(Action::RequireAuth(owner));
        actions.push(Action::UpdateContractWasm(hash));
        proof {
            assert(actions@ =~= seq![Action::RequireAuth(owner), Action::UpdateContractWasm(hash)]);
        }
        Ok(actions)
    }

    fn mine_into(
        storage: &mut Storage,
        source: Address,
        colors: &SortedMap<u32, u32>,
        miner: Option<Address>,
        to: Option<Address>,
    ) -> (r: Result<Vec<Action>, Failure>)
        requires
            old(storage).wf(),
            colors.wf(),
        ensures
            final(storage).wf(),
            match mine_outcome(old(storage)@, source, colors@, miner, to) {
                Ok((s, a)) => r is Ok && r->Ok_0@ == a && final(storage)@ == s,
                Err(f) => r is Err && r->Err_0 == f,
            },
    {
        let miner_address = match miner {
            Some(a) => a,
            None => source,
        };
        let to_address = match to {
            Some(a) => a,
            None => source,
        };
        let ghost s0 = storage@;
        let ghost c = colors@;
        let mut pay_amount: u32 = 0;
        let mut i: usize = 0;
        while i < colors.len()
            invariant
                storage.wf(),
                colors.wf(),
                c == colors@,
                s0 == old(storage)@,
                miner_address == (match miner {
                    Some(a) => a,
                    None => source,
                }),
                to_address == (match to {
                    Some(a) => a,
                    None => source,
                }),
                0 <= i <= c.len(),
                storage@ == (StorageView { colors: credited(s0.colors, miner_address, to_address, c.take(i as int)), ..s0 }),
                pay_amount == total(c.take(i as int)),
                forall|j: int|
                    0 <= j < i ==> balance_in(s0.colors, key(miner_address, to_address, (#[trigger] c[j]).0)) + c[j].1
                        <= u32::MAX,
            decreases c.len() - i,
        {
            let color = colors.key_at(i);
            let amount = *colors.value_at(i);
            proof {
                assert(c.take(i as int + 1).drop_last() =~= c.take(i as int));
                assert forall|j: int| 0 <= j < c.take(i as int).len() implies key(
                    miner_address,
                    to_address,
                    (#[trigger] c.take(i as int)[j]).0,
                ) != key(miner_address, to_address, color) by {
                    assert(c[j].0.precedes(c[i as int].0));
                }
                lemma_credited_other(s0.colors, miner_address, to_address, c.take(i as int), key(miner_address, to_address, color));
            }
            let current_amount = read_color(storage, &miner_address, &to_address, color);
            let new_amount = match current_amount.checked_add(amount) {
                Some(v) => v,
                None => {
                    proof {
                        assert(balance_in(s0.colors, key(miner_address, to_address, c[i as int].0)) + c[i as int].1
                            > u32::MAX);
                        assert(mine_overflows(s0.colors, miner_address, to_address, c));
                    }
                    return Err(Failure::Trapped);
                },
            };
            write_color(storage, &miner_address, &to_address, color, new_amount);
            pay_amount = match pay_amount.checked_add(amount) {
                Some(v) => v,
                None => {
                    proof {
                        lemma_total_grows(c, i as int + 1);
                    }
                    return Err(Failure::Trapped);
                },
            };
            i = i + 1;
        }
        proof {
            assert(c.take(i as int) =~= c);
        }
        let token_address = match read_token_address(storage) {
            Ok(a) => a,
            Err(e) => {
                return Err(Failure::Refused(e));
            },
        };
        let fee_address = match read_fee_address(storage) {
            Ok(a) => a,
            Err(e) => {
                return Err(Failure::Refused(e));
            },
        };
        let mine_multiplier = match read_mine_multiplier(storage) {
            Ok(m) => m,
            Err(e) => {
                return Err(Failure::Refused(e));
            },
        };
        let fee = match (pay_amount as i128).checked_mul(mine_multiplier) {
            Some(f) => f,
            None => {
                return Err(Failure::Trapped);
            },
        };
        let mut actions: Vec<Action> = Vec::new();
        actions.push(Action::RequireAuth(source));
        actions.push(
            Action::Transfer { token: token_address, from: source, to: fee_address, amount: fee },
        );
        proof {
            assert(actions@ =~= seq![
                Action::RequireAuth(source),
                Action::Transfer { token: token_address, from: source, to: fee_address, amount: fee },
            ]);
        }
        Ok(actions)
    }

    /// Mines `colors` (color: amount): `to` (or `source`) holds them as mined
    /// by `miner` (or `source`), and `source` pays the mining fee.
    pub fn colors_mine(
        storage: &mut Storage,
        source: Address,
        colors: &SortedMap<u32, u32>,
        miner: Option<Address>,
        to: Option<Address>,
    ) -> (r: Result<Vec<Action>, Failure>)
        requires
            old(storage).wf(),
            colors.wf(),
        ensures
            final(storage).wf(),
            exchange_wf(old(storage)@) ==> exchange_wf(final(storage)@),
            settles(r, old(storage)@, final(storage)@, mine_outcome(old(storage)@, source, colors@, miner, to)),
    {
        let mut scratch = storage.duplicate();
        let r = Self::mine_into(&mut scratch, source, colors, miner, to);
        if r.is_ok() {
            *storage = scratch;
        }
        r
    }

    fn transfer_into(
        storage: &mut Storage,
        from: Address,
        to: Address,
        colors: &Vec<(Address, u32, u32)>,
    ) -> (r: Result<Vec<Action>, Failure>)
        requires
            old(storage).wf(),
        ensures
            final(storage).wf(),
            match transfer_outcome(old(storage)@, from, to, colors@) {
                Ok((s, a)) => r is Ok && r->Ok_0@ == a && final(storage)@ == s,
                Err(f) => r is Err && r->Err_0 == f,
            },
    {
        let ghost s0 = storage@;
        let ghost items = colors@;
        let mut i: usize = 0;
        while i < colors.len()
            invariant
                storage.wf(),
                items == colors@,
                s0 == old(storage)@,
                0 <= i <= items.len(),
                transferred(s0.colors, from, to, items.take(i as int)) == Ok::<
                    Map<ColorKey, u32>,
                    Failure,
                >(storage@.colors),
                storage@ == (StorageView { colors: storage@.colors, ..s0 }),
            decreases items.len() - i,
        {
            let (miner, color, amount) = colors[i];
            proof {
                assert(items.take(i as int + 1).drop_last() =~= items.take(i as int));
                assert(items.take(i as int + 1).last() == items[i as int]);
            }
            let current_from_amount = read_color(storage, &miner, &from, color);
            let current_to_amount = read_color(storage, &miner, &to, color);
            if amount > current_from_amount {
                proof {
                    lemma_transferred_fails(s0.colors, from, to, items, i as int + 1);
                }
                return Err(Failure::Refused(Error::NotPermitted));
            }
            write_color(storage, &miner, &from, color, current_from_amount - amount);
            let new_to_amount = match current_to_amount.checked_add(amount) {
                Some(v) => v,
                None => {
                    proof {
                        lemma_transferred_fails(s0.colors, from, to, items, i as int + 1);
                    }
                    return Err(Failure::Trapped);
                },
            };
            write_color(storage, &miner, &to, color, new_to_amount);
            i = i + 1;
        }
        proof {
            assert(items.take(i as int) =~= items);
        }
        let mut actions: Vec<Action> = Vec::new();
        actions.push(Action::RequireAuth(from));
        proof {
            assert(actions@ =~= seq![Action::RequireAuth(from)]);
        }
        Ok(actions)
    }

    /// Moves each (miner, color, amount) of `colors` in turn from `from` to `to`.
    pub fn colors_transfer(
        storage: &mut Storage,
        from: Address,
        to: Address,
        colors: &Vec<(Address, u32, u32)>,
    ) -> (r: Result<Vec<Action>, Failure>)
        requires
            old(storage).wf(),
        ensures
            final(storage).wf(),
            exchange_wf(old(storage)@) ==> exchange_wf(final(storage)@),
            settles(r, old(storage)@, final(storage)@, transfer_outcome(old(storage)@, from, to, colors@)),
    {
        let mut scratch = storage.duplicate();
        let r = Self::transfer_into(&mut scratch, from, to, colors);
        if r.is_ok() {
            *storage = scratch;
        }
        r
    }

    /// The amount of `color` that `owner` holds as mined by `miner` (or by `owner`).
    pub fn color_balance(storage: &Storage, owner: Address, color: u32, miner: Option<Address>) -> (amount: u32)
        requires
            storage.wf(),
        ensures
            amount == balance_in(storage@.colors, key(or_keep(miner, owner), owner, color)),
    {
        let miner = match miner {
            Some(a) => a,
            None => owner,
        };
        read_color(storage, &miner, &owner, color)
    }

    /// Mints, or goes on minting, the glyph `hash` from the colors `minter`
    /// holds; see `mint_outcome`.
    pub fn glyph_mint(
        storage: &mut Storage,
        env: &soroban_sdk::Env,
        hash: Hash32,
        minter: Address,
        to: Option<Address>,
        colors: &GlyphColors,
        width: Option<u32>,
    ) -> (r: Result<Vec<Action>, Failure>)
        requires
            old(storage).wf(),
            colors.wf(),
            colors_wf(colors@),
        ensures
            final(storage).wf(),
            exchange_wf(old(storage)@) ==> exchange_wf(final(storage)@),
            settles(r, old(storage)@, final(storage)@, mint_outcome(old(storage)@, hash, minter, to, colors@, width)),
    {
        let r = mint_into(storage, env, hash, minter, to, colors, width);
        proof {
            if r is Ok {
                law_mint_leaves_offers(old(storage)@, hash, minter, to, colors@, width);
            }
        }
        r
    }

    /// Gives the glyph `hash` to `to`; its owner must authorize.
    pub fn glyph_transfer(storage: &mut Storage, to: Address, hash: Hash32) -> (r: Result<
        Vec<Action>,
        Failure,
    >)
        requires
            old(storage).wf(),
        ensures
            final(storage).wf(),
            exchange_wf(old(storage)@) ==> exchange_wf(final(storage)@),
            settles(r, old(storage)@, final(storage)@, glyph_transfer_outcome(old(storage)@, to, hash)),
    {
        let mut actions: Vec<Action> = Vec::new();
        match glyph_verify_ownership(storage, &hash, &mut actions) {
            Ok(_) => {},
            Err(f) => {
                return Err(f);
            },
        }
        write_glyph_owner(storage, &hash, &to);
        actions.push(Action::Publish(Event::TransferGlyph { to, hash }));
        proof {
            assert(actions@ =~= seq![
                Action::RequireAuth(old(storage)@.owners[hash]),
                Action::Publish(Event::TransferGlyph { to, hash }),
            ]);
        }
        Ok(actions)
    }

    /// Takes colors back out of the glyph `hash`; see `scrape_outcome`.
    pub fn glyph_scrape(storage: &mut Storage, to: Option<Address>, hash: Hash32) -> (r: Result<
        Vec<Action>,
        Failure,
    >)
        requires
            old(storage).wf(),
        ensures
            final(storage).wf(),
            exchange_wf(old(storage)@) ==> exchange_wf(final(storage)@),
            settles(r, old(storage)@, final(storage)@, scrape_outcome(old(storage)@, to, hash)),
    {
        let r = scrape_into(storage, to, hash);
        proof {
            if exchange_wf(old(storage)@) && r is Ok {
                law_scrape_keeps_books(old(storage)@, to, hash);
            }
        }
        r
    }

    /// The glyph recorded under `hash`.
    pub fn glyph_get<'a>(storage: &'a Storage, hash: Hash32) -> (r: Result<&'a Glyph, Error>)
        requires
            storage.wf(),
        ensures
            r is Ok == storage@.glyphs.contains_key(hash),
            r is Ok ==> r->Ok_0@ == storage@.glyphs[hash],
            r is Err ==> r->Err_0 == Error::NotFound,
    {
        read_glyph_or_error(storage, &hash)
    }

    /// Posts an offer to give `sell` for `buy`; `this` is the contract's own
    /// address, which holds escrowed bids. See `post_outcome`.
    pub fn offer_post(storage: &mut Storage, this: Address, sell: Offer, buy: Offer) -> (r: Result<
        Vec<Action>,
        Failure,
    >)
        requires
            old(storage).wf(),
        ensures
            final(storage).wf(),
            exchange_wf(old(storage)@) ==> exchange_wf(final(storage)@),
            settles(r, old(storage)@, final(storage)@, post_outcome(old(storage)@, this, sell, buy)),
    {
        let r = offer_post(storage, this, sell, buy);
        proof {
            if exchange_wf(old(storage)@) && r is Ok {
                law_post_keeps_books(old(storage)@, this, sell, buy);
            }
        }
        r
    }

    /// Withdraws offers; see `delete_outcome`.
    pub fn offer_delete(storage: &mut Storage, this: Address, sell: Offer, buy: Option<Offer>) -> (r:
        Result<Vec<Action>, Failure>)
        requires
            old(storage).wf(),
        ensures
            final(storage).wf(),
            exchange_wf(old(storage)@) ==> exchange_wf(final(storage)@),
            settles(r, old(storage)@, final(storage)@, delete_outcome(old(storage)@, this, sell, buy)),
    {
        let r = offer_delete(storage, this, sell, buy);
        proof {
            if exchange_wf(old(storage)@) && r is Ok {
                law_delete_keeps_books(old(storage)@, this, sell, buy);
            }
        }
        r
    }

    /// Looks offers up; see `get_result`.
    pub fn offers_get(storage: &Storage, sell: Offer, buy: Option<Offer>) -> (r: Result<(), Error>)
        requires
            storage.wf(),
        ensures
            r == get_result(storage@, sell, buy),
    {
        offers_get(storage, sell, buy)
    }
}

} // verus!

//! The exchange: offers to sell a glyph for a glyph or for an amount of a
//! token, offers to buy a glyph with an escrowed amount, their matching, and
//! the royalties a sale pays to the glyph's minter and miners.

use vstd::prelude::*;
use crate::order::{Cmp, Ordered, binary_search, search};
use crate::sorted_map::{Duplicate, SortedMap};
use crate::storage::{
    Storage, StorageView, has_asset_offers_by_asset, offers_of, read_asset_offers_by_asset,
    read_glyph_minter, read_glyph_or_error, read_glyph_owner, read_miner_royalty_rate,
    read_minter_royalty_rate, read_offers_by_glyph, remove_asset_offers_by_asset,
    remove_glyph_offer, write_asset_offers_by_asset, write_glyph_owner, write_offers_by_glyph,
};
use crate::glyphs::glyph_verify_ownership;
use crate::types::{
    Action, Address, AssetKey, ColorsView, Error, Failure, Glyph, Hash32, Offer, OfferCreate,
    colors_wf,
};

verus! {

/// `r / z` rounded up (`z != 0`).
pub open spec fn ceil_div(r: int, z: int) -> int {
    if z > 0 {
        -((-r) / z)
    } else {
        -(r / (-z))
    }
}

/// What `fixed_mul_ceil` gives: `x * y / z` rounded up, or nothing when
/// `x * y` does not fit, `z` is 0, or the quotient does not fit.
pub open spec fn mul_ceil(x: i128, y: i128, z: i128) -> Option<i128> {
    let r = x * y;
    if r < i128::MIN || r > i128::MAX || z == 0 || (r == i128::MIN && z == -1) {
        None
    } else {
        Some(ceil_div(r, z as int) as i128)
    }
}

/// Calls `soroban_fixed_point_math::FixedPoint::fixed_mul_ceil` on `i128`.
/// Claimed, as its source computes it with checked arithmetic: `x * y / z`
/// rounded up, and `None` exactly when the product overflows, the
/// denominator is 0, or the quotient overflows.
#[verifier::external_body]
fn fixed_mul_ceil(x: i128, y: i128, denominator: i128) -> (r: Option<i128>)
    ensures
        r == mul_ceil(x, y, denominator),
{
    soroban_fixed_point_math::FixedPoint::fixed_mul_ceil(x, y, denominator)
}

/// A payment to `comp` is made unless `comp` is the paying owner itself.
pub open spec fn pays(asset_owner: Option<Address>, comp: Address) -> bool {
    match asset_owner {
        None => true,
        Some(o) => o != comp,
    }
}

/// The contract pays out of escrow when no owner pays.
pub open spec fn payer(asset_owner: Option<Address>, this: Address) -> Address {
    match asset_owner {
        None => this,
        Some(o) => o,
    }
}

/// One royalty payment: the transfer, and what is left of the price.
pub open spec fn pay_step(
    st: (int, Seq<Action>),
    token: Address,
    asset_owner: Option<Address>,
    this: Address,
    comp: Address,
    amount: i128,
) -> Option<(int, Seq<Action>)> {
    if pays(asset_owner, comp) {
        let left = st.0 - amount;
        if left < i128::MIN || left > i128::MAX {
            None
        } else {
            Some(
                (
                    left,
                    st.1.push(
                        Action::Transfer { token, from: payer(asset_owner, this), to: comp, amount },
                    ),
                ),
            )
        }
    } else {
        Some(st)
    }
}

/// The number of pixels a miner's colors paint in a glyph.
pub open spec fn count_indexes(cs: Seq<(u32, Seq<u32>)>) -> nat
    decreases cs.len(),
{
    if cs.len() == 0 {
        0
    } else {
        count_indexes(cs.drop_last()) + cs.last().1.len()
    }
}

/// A miner's royalty: the miner rate's share of the price, in proportion to
/// the pixels painted with the miner's colors.
pub open spec fn miner_royalty(rate: i128, amount: i128, count: nat, length: u32) -> Option<i128> {
    match mul_ceil(rate, amount, 100) {
        None => None,
        Some(share) => mul_ceil(share, count as i128, length as i128),
    }
}

/// The minter's royalty on a sale for `amount`: `rate` percent, rounded up.
pub fn minter_royalty_amount(rate: i128, amount: i128) -> (r: Option<i128>)
    ensures
        r == mul_ceil(rate, amount, 100),
{
    fixed_mul_ceil(rate, amount, 100)
}

/// A miner's royalty on a sale for `amount`, whose colors paint `count` of
/// the glyph's `length` pixels.
pub fn miner_royalty_amount(rate: i128, amount: i128, count: u32, length: u32) -> (r: Option<i128>)
    ensures
        r == miner_royalty(rate, amount, count as nat, length),
{
    match fixed_mul_ceil(rate, amount, 100) {
        Some(share) => fixed_mul_ceil(share, count as i128, length as i128),
        None => None,
    }
}

/// Pays each miner of a glyph, in miner order.
pub open spec fn pay_miners(
    st: (int, Seq<Action>),
    ms: ColorsView,
    token: Address,
    asset_owner: Option<Address>,
    this: Address,
    rate: i128,
    amount: i128,
    length: u32,
) -> Option<(int, Seq<Action>)>
    decreases ms.len(),
{
    if ms.len() == 0 {
        Some(st)
    } else {
        match pay_miners(st, ms.drop_last(), token, asset_owner, this, rate, amount, length) {
            None => None,
            Some(st1) => {
                let count = count_indexes(ms.last().1);
                if count > u32::MAX {
                    None
                } else {
                    match miner_royalty(rate, amount, count, length) {
                        None => None,
                        Some(r) => pay_step(st1, token, asset_owner, this, ms.last().0, r),
                    }
                }
            },
        }
    }
}

/// The transfers of a sale of the glyph `hash` for `amount` of `asset`: the
/// minter's royalty, each miner's royalty, then what is left to the glyph's
/// owner; paid by `asset_owner`, or by the contract from escrow.
pub open spec fn royalties(
    s: StorageView,
    this: Address,
    glyph_owner: Address,
    hash: Hash32,
    amount: i128,
    asset: Address,
    asset_owner: Option<Address>,
) -> Result<Seq<Action>, Failure> {
    if !s.glyphs.contains_key(hash) || !s.minters.contains_key(hash) {
        Err(Failure::Refused(Error::NotFound))
    } else {
        match s.config {
            None => Err(Failure::Refused(Error::NotInitialized)),
            Some(cfg) => match mul_ceil(cfg.minter_royalty_rate, amount, 100) {
                None => Err(Failure::Trapped),
                Some(minter_amount) => match pay_step(
                    (amount as int, Seq::empty()),
                    asset,
                    asset_owner,
                    this,
                    s.minters[hash],
                    minter_amount,
                ) {
                    None => Err(Failure::Trapped),
                    Some(st) => match pay_miners(
                        st,
                        s.glyphs[hash].colors,
                        asset,
                        asset_owner,
                        this,
                        cfg.miner_royalty_rate,
                        amount,
                        s.glyphs[hash].length,
                    ) {
                        None => Err(Failure::Trapped),
                        Some((left, acts)) => Ok(
                            if pays(asset_owner, glyph_owner) {
                                acts.push(
                                    Action::Transfer {
                                        token: asset,
                                        from: payer(asset_owner, this),
                                        to: glyph_owner,
                                        amount: left as i128,
                                    },
                                )
                            } else {
                                acts
                            },
                        ),
                    },
                },
            },
        }
    }
}

/// Pays `comp` unless it is the paying owner, and takes the payment off
/// `leftover` when it is tracked.
fn make_transfer(
    leftover: &mut i128,
    track: bool,
    token: Address,
    asset_owner: &Option<Address>,
    this: Address,
    comp: Address,
    amount: i128,
    actions: &mut Vec<Action>,
) -> (ok: bool)
    ensures
        track ==> match pay_step((*old(leftover) as int, old(actions)@), token, *asset_owner, this, comp, amount) {
            None => !ok,
            Some((l, a)) => ok && *final(leftover) == l && final(actions)@ == a,
        },
        !track ==> ok && *final(leftover) == *old(leftover) && final(actions)@ == (if pays(*asset_owner, comp) {
            old(actions)@.push(Action::Transfer { token, from: payer(*asset_owner, this), to: comp, amount })
        } else {
            old(actions)@
        }),
{
    let (do_transfer, from) = match asset_owner {
        None => (true, this),
        Some(owner) => match owner.compare(&comp) {
            Cmp::Equal => (false, *owner),
            _ => (true, *owner),
        },
    };
    if do_transfer {
        if track {
            match leftover.checked_sub(amount) {
                Some(l) => {
                    *leftover = l;
                },
                None => {
                    return false;
                },
            }
        }
        actions.push(Action::Transfer { token, from, to: comp, amount });
    }
    true
}

pub proof fn lemma_count_grows(cs: Seq<(u32, Seq<u32>)>, i: int)
    requires
        0 <= i <= cs.len(),
    ensures
        count_indexes(cs.take(i)) <= count_indexes(cs),
    decreases cs.len() - i,
{
    if i < cs.len() {
        lemma_count_grows(cs, i + 1);
        assert(cs.take(i + 1).drop_last() =~= cs.take(i));
    } else {
        assert(cs.take(i) =~= cs);
    }
}

pub proof fn lemma_pay_miners_stuck(
    st: (int, Seq<Action>),
    ms: ColorsView,
    token: Address,
    asset_owner: Option<Address>,
    this: Address,
    rate: i128,
    amount: i128,
    length: u32,
    i: int,
)
    requires
        0 <= i <= ms.len(),
        pay_miners(st, ms.take(i), token, asset_owner, this, rate, amount, length) is None,
    ensures
        pay_miners(st, ms, token, asset_owner, this, rate, amount, length) is None,
    decreases ms.len() - i,
{
    if i < ms.len() {
        assert(ms.take(i + 1).drop_last() =~= ms.take(i));
        lemma_pay_miners_stuck(st, ms, token, asset_owner, this, rate, amount, length, i + 1);
    } else {
        assert(ms.take(i) =~= ms);
    }
}

/// The number of pixels painted with a miner's colors, if it fits in a `u32`.
fn count_colors(colors_indexes: &SortedMap<u32, Vec<u32>>) -> (r: Option<u32>)
    ensures
        count_indexes(colors_indexes@) <= u32::MAX ==> r == Some(count_indexes(colors_indexes@) as u32),
        count_indexes(colors_indexes@) > u32::MAX ==> r is None,
{
    let ghost cs = colors_indexes@;
    let mut color_count: u32 = 0;
    let mut ci: usize = 0;
    while ci < colors_indexes.len()
        invariant
            cs == colors_indexes@,
            0 <= ci <= cs.len(),
            color_count == count_indexes(cs.take(ci as int)),
        decreases cs.len() - ci,
    {
        let n = colors_indexes.value_at(ci).len();
        proof {
            assert(cs.take(ci as int + 1).drop_last() =~= cs.take(ci as int));
        }
        if n > (u32::MAX - color_count) as usize {
            proof {
                lemma_count_grows(cs, ci as int + 1);
            }
            return None;
        }
        color_count = color_count + n as u32;
        ci = ci + 1;
    }
    proof {
        assert(cs.take(ci as int) =~= cs);
    }
    Some(color_count)
}

/// Pays each miner of `glyph` its royalty, in miner order.
fn pay_miners_of(
    glyph: &Glyph,
    leftover: &mut i128,
    asset: Address,
    asset_owner: &Option<Address>,
    this: Address,
    rate: i128,
    amount: i128,
    actions: &mut Vec<Action>,
) -> (ok: bool)
    ensures
        match pay_miners(
            (*old(leftover) as int, old(actions)@),
            glyph.colors@,
            asset,
            *asset_owner,
            this,
            rate,
            amount,
            glyph.length,
        ) {
            None => !ok,
            Some((l, a)) => ok && *final(leftover) == l && final(actions)@ == a,
        },
{
    let ghost st0: (int, Seq<Action>) = (*leftover as int, actions@);
    let ghost ms = glyph.colors@;
    let mut mi: usize = 0;
    proof {
        assert(ms.take(0) =~= Seq::<(Address, Seq<(u32, Seq<u32>)>)>::empty());
    }
    while mi < glyph.colors.len()
        invariant
            ms == glyph.colors@,
            st0 == (*old(leftover) as int, old(actions)@),
            0 <= mi <= ms.len(),
            pay_miners(st0, ms.take(mi as int), asset, *asset_owner, this, rate, amount, glyph.length)
                == Some::<(int, Seq<Action>)>((*leftover as int, actions@)),
        decreases ms.len() - mi,
    {
        let miner_address = glyph.colors.key_at(mi);
        proof {
            assert(ms.take(mi as int + 1).drop_last() =~= ms.take(mi as int));
            assert(ms.take(mi as int + 1).last() == ms[mi as int]);
        }
        let color_count = match count_colors(glyph.colors.value_at(mi)) {
            Some(c) => c,
            None => {
                proof {
                    lemma_pay_miners_stuck(st0, ms, asset, *asset_owner, this, rate, amount, glyph.length, mi as int + 1);
                }
                return false;
            },
        };
        let ghost cnt = count_indexes(ms[mi as int].1);
        proof {
            assert(cnt <= u32::MAX);
            assert(color_count == cnt);
        }
        let miner_amount = match miner_royalty_amount(rate, amount, color_count, glyph.length) {
            Some(a) => a,
            None => {
                proof {
                    lemma_pay_miners_stuck(st0, ms, asset, *asset_owner, this, rate, amount, glyph.length, mi as int + 1);
                }
                return false;
            },
        };
        proof {
            assert(miner_royalty(rate, amount, cnt, glyph.length) == Some(miner_amount));
        }
        if !make_transfer(leftover, true, asset, asset_owner, this, miner_address, miner_amount, actions) {
            proof {
                lemma_pay_miners_stuck(st0, ms, asset, *asset_owner, this, rate, amount, glyph.length, mi as int + 1);
            }
            return false;
        }
        mi = mi + 1;
    }
    proof {
        assert(ms.take(mi as int) =~= ms);
    }
    true
}

/// The transfers of a sale: see `royalties`.
pub fn reward_minter_and_miners(
    storage: &Storage,
    this: Address,
    glyph_owner: Address,
    hash: &Hash32,
    amount: i128,
    asset: Address,
    asset_owner: Option<Address>,
) -> (r: Result<Vec<Action>, Failure>)
    requires
        storage.wf(),
    ensures
        match royalties(storage@, this, glyph_owner, *hash, amount, asset, asset_owner) {
            Ok(a) => r is Ok && r->Ok_0@ == a,
            Err(f) => r is Err && r->Err_0 == f,
        },
{
    let mut leftover = amount;
    let mut actions: Vec<Action> = Vec::new();
    let glyph = match read_glyph_or_error(storage, hash) {
        Ok(g) => g,
        Err(e) => {
            return Err(Failure::Refused(e));
        },
    };
    let glyph_minter_address = match read_glyph_minter(storage, hash) {
        Some(a) => a,
        None => {
            return Err(Failure::Refused(Error::NotFound));
        },
    };
    let minter_royalty_rate = match read_minter_royalty_rate(storage) {
        Ok(r) => r,
        Err(e) => {
            return Err(Failure::Refused(e));
        },
    };
    let miner_royalty_rate = match read_miner_royalty_rate(storage) {
        Ok(r) => r,
        Err(e) => {
            return Err(Failure::Refused(e));
        },
    };
    let minter_amount = match minter_royalty_amount(minter_royalty_rate, amount) {
        Some(a) => a,
        None => {
            return Err(Failure::Trapped);
        },
    };
    if !make_transfer(
        &mut leftover,
        true,
        asset,
        &asset_owner,
        this,
        glyph_minter_address,
        minter_amount,
        &mut actions,
    ) {
        return Err(Failure::Trapped);
    }
    if !pay_miners_of(glyph, &mut leftover, asset, &asset_owner, this, miner_royalty_rate, amount, &mut actions) {
        return Err(Failure::Trapped);
    }
    let rest = leftover;
    make_transfer(&mut leftover, false, asset, &asset_owner, this, glyph_owner, rest, &mut actions);
    Ok(actions)
}

/// What a sale does to the glyph's records: a new owner, and no sell offers.
pub open spec fn owned_by(s: StorageView, hash: Hash32, owner: Address) -> StorageView {
    StorageView { owners: s.owners.insert(hash, owner), glyph_offers: s.glyph_offers.remove(hash), ..s }
}

/// The escrowed bids recorded for a glyph at a price, or none.
pub open spec fn bids_of(s: StorageView, k: AssetKey) -> Seq<Address> {
    if s.asset_offers.contains_key(k) {
        s.asset_offers[k]
    } else {
        Seq::empty()
    }
}

/// The bids after `bids` are written back: an empty list is removed.
pub open spec fn with_bids(s: StorageView, k: AssetKey, bids: Seq<Address>) -> StorageView {
    if bids.len() == 0 {
        StorageView { asset_offers: s.asset_offers.remove(k), ..s }
    } else {
        StorageView { asset_offers: s.asset_offers.insert(k, bids), ..s }
    }
}

/// Recording an offer. A sell offer needs the glyph's owner, and is refused
/// when the owner already accepts the same thing; it is kept in order. A bid
/// escrows its amount with the contract, and is refused when its owner
/// already bid for that glyph at that price; bids keep their order of arrival.
pub open spec fn create_outcome(s: StorageView, this: Address, offer: OfferCreate) -> Result<
    (StorageView, Seq<Action>),
    Failure,
> {
    match offer {
        OfferCreate::Glyph(sell, buy) => if !s.owners.contains_key(sell) {
            Err(Failure::Refused(Error::NotFound))
        } else {
            let offers = offers_of(s, sell);
            match search(offers, buy) {
                Ok(_) => Err(Failure::Refused(Error::NotEmpty)),
                Err(i) => Ok(
                    (
                        StorageView {
                            glyph_offers: s.glyph_offers.insert(sell, offers.insert(i, buy)),
                            ..s
                        },
                        seq![Action::RequireAuth(s.owners[sell])],
                    ),
                ),
            }
        },
        OfferCreate::Asset(buy, owner, asset, amount) => {
            let k = AssetKey { hash: buy, asset, amount };
            let bids = bids_of(s, k);
            if bids.contains(owner) {
                Err(Failure::Refused(Error::NotEmpty))
            } else {
                Ok(
                    (
                        StorageView { asset_offers: s.asset_offers.insert(k, bids.push(owner)), ..s },
                        seq![
                            Action::RequireAuth(owner),
                            Action::Transfer { token: asset, from: owner, to: this, amount },
                        ],
                    ),
                )
            }
        },
    }
}

/// Posting the offer to give `sell` for `buy`. When the other side already
/// stands (the owner of the glyph `buy` accepts `sell`, or someone bid `buy`
/// for the glyph `sell`), the trade is made; otherwise the offer is recorded.
/// A sale for an amount pays the royalties and moves the glyph; a swap moves
/// both glyphs; a glyph that changes hands loses its sell offers.
pub open spec fn post_outcome(s: StorageView, this: Address, sell: Offer, buy: Offer) -> Result<
    (StorageView, Seq<Action>),
    Failure,
> {
    match buy {
        Offer::Glyph(bh) => {
            let target = match sell {
                Offer::Glyph(sh) => Some(Offer::Glyph(sh)),
                Offer::AssetSell(_, a, amount) => Some(Offer::Asset(a, amount)),
                _ => None,
            };
            match target {
                None => Err(Failure::Refused(Error::NotPermitted)),
                Some(t) => {
                    let offers = offers_of(s, bh);
                    match search(offers, t) {
                        Ok(idx) => if !s.owners.contains_key(bh) {
                            Err(Failure::Refused(Error::NotFound))
                        } else {
                            let buy_owner = s.owners[bh];
                            let s1 = StorageView {
                                glyph_offers: s.glyph_offers.insert(bh, offers.remove(idx)),
                                ..s
                            };
                            match sell {
                                Offer::Glyph(sh) => if !s1.owners.contains_key(sh) {
                                    Err(Failure::Refused(Error::NotFound))
                                } else {
                                    let sell_owner = s1.owners[sh];
                                    Ok(
                                        (
                                            owned_by(owned_by(s1, sh, buy_owner), bh, sell_owner),
                                            seq![Action::RequireAuth(sell_owner)],
                                        ),
                                    )
                                },
                                Offer::AssetSell(so, a, amount) => match royalties(
                                    s1,
                                    this,
                                    buy_owner,
                                    bh,
                                    amount,
                                    a,
                                    Some(so),
                                ) {
                                    Err(f) => Err(f),
                                    Ok(pay) => Ok(
                                        (owned_by(s1, bh, so), seq![Action::RequireAuth(so)] + pay),
                                    ),
                                },
                                _ => Err(Failure::Refused(Error::NotPermitted)),
                            }
                        },
                        Err(_) => match sell {
                            Offer::Glyph(sh) => create_outcome(s, this, OfferCreate::Glyph(sh, buy)),
                            Offer::AssetSell(so, a, amount) => create_outcome(
                                s,
                                this,
                                OfferCreate::Asset(bh, so, a, amount),
                            ),
                            _ => Err(Failure::Refused(Error::NotPermitted)),
                        },
                    }
                },
            }
        },
        Offer::Asset(ba, amount) => match sell {
            Offer::Glyph(sh) => {
                let k = AssetKey { hash: sh, asset: ba, amount };
                let bids = bids_of(s, k);
                if bids.len() == 0 {
                    create_outcome(s, this, OfferCreate::Glyph(sh, buy))
                } else if !s.owners.contains_key(sh) {
                    Err(Failure::Refused(Error::NotFound))
                } else {
                    let seller = s.owners[sh];
                    match royalties(s, this, seller, sh, amount, ba, None) {
                        Err(f) => Err(f),
                        Ok(pay) => Ok(
                            (
                                owned_by(with_bids(s, k, bids.drop_first()), sh, bids[0]),
                                seq![Action::RequireAuth(seller)] + pay,
                            ),
                        ),
                    }
                }
            },
            _ => Err(Failure::Refused(Error::NotPermitted)),
        },
        _ => Err(Failure::Refused(Error::NotPermitted)),
    }
}

/// Withdrawing offers. The owner of a glyph withdraws one of its sell offers,
/// or all of them; a bidder withdraws a bid for a glyph and gets the escrow back.
pub open spec fn delete_outcome(s: StorageView, this: Address, sell: Offer, buy: Option<Offer>) -> Result<
    (StorageView, Seq<Action>),
    Failure,
> {
    match sell {
        Offer::Glyph(gh) => if !s.owners.contains_key(gh) {
            Err(Failure::Refused(Error::NotFound))
        } else {
            let auth = seq![Action::RequireAuth(s.owners[gh])];
            let offers = offers_of(s, gh);
            match buy {
                Some(b) => match search(offers, b) {
                    Ok(i) => Ok(
                        (
                            StorageView {
                                glyph_offers: s.glyph_offers.insert(gh, offers.remove(i)),
                                ..s
                            },
                            auth,
                        ),
                    ),
                    Err(_) => Err(Failure::Refused(Error::NotFound)),
                },
                None => Ok((StorageView { glyph_offers: s.glyph_offers.remove(gh), ..s }, auth)),
            }
        },
        Offer::AssetSell(owner, asset, amount) => match buy {
            Some(Offer::Glyph(gh)) => {
                let k = AssetKey { hash: gh, asset, amount };
                if !s.asset_offers.contains_key(k) {
                    Err(Failure::Refused(Error::NotFound))
                } else {
                    let bids = s.asset_offers[k];
                    match search(bids, owner) {
                        Ok(i) => Ok(
                            (
                                with_bids(s, k, bids.remove(i)),
                                seq![
                                    Action::RequireAuth(owner),
                                    Action::Transfer { token: asset, from: this, to: owner, amount },
                                ],
                            ),
                        ),
                        Err(_) => Err(Failure::Refused(Error::NotFound)),
                    }
                }
            },
            Some(_) => Err(Failure::Refused(Error::NotPermitted)),
            None => Err(Failure::Refused(Error::MissingBuy)),
        },
        _ => Err(Failure::Refused(Error::NotPermitted)),
    }
}

/// Looking offers up: whether the glyph `sell` has any sell offer (or the
/// one for `buy`), whether anyone bid (or the named bidder bid) for the glyph
/// `buy` at a price.
pub open spec fn get_result(s: StorageView, sell: Offer, buy: Option<Offer>) -> Result<(), Error> {
    match sell {
        Offer::Glyph(gh) => {
            let offers = offers_of(s, gh);
            let found = match buy {
                None => offers.len() != 0,
                Some(b) => search(offers, b) is Ok,
            };
            if found {
                Ok(())
            } else {
                Err(Error::NotFound)
            }
        },
        Offer::Asset(asset, amount) => match buy {
            Some(Offer::Glyph(gh)) => if s.asset_offers.contains_key(
                AssetKey { hash: gh, asset, amount },
            ) {
                Ok(())
            } else {
                Err(Error::NotFound)
            },
            Some(_) => Err(Error::NotPermitted),
            None => Err(Error::MissingBuy),
        },
        Offer::AssetSell(seller, asset, amount) => match buy {
            Some(Offer::Glyph(gh)) => {
                let k = AssetKey { hash: gh, asset, amount };
                if s.asset_offers.contains_key(k) && s.asset_offers[k].contains(seller) {
                    Ok(())
                } else {
                    Err(Error::NotFound)
                }
            },
            Some(_) => Err(Error::NotPermitted),
            None => Err(Error::MissingBuy),
        },
    }
}

/// Whether `a` is among `v`.
pub fn address_in(v: &Vec<Address>, a: &Address) -> (b: bool)
    ensures
        b == v@.contains(*a),
{
    let mut i: usize = 0;
    while i < v.len()
        invariant
            0 <= i <= v@.len(),
            forall|j: int| 0 <= j < i ==> v@[j] != *a,
        decreases v@.len() - i,
    {
        match v[i].compare(a) {
            Cmp::Equal => {
                return true;
            },
            _ => {},
        }
        i = i + 1;
    }
    false
}

/// Gives the glyph `hash` to `new_owner` and removes its sell offers.
pub fn transfer_ownership(storage: &mut Storage, hash: &Hash32, new_owner: &Address)
    requires
        old(storage).wf(),
    ensures
        final(storage).wf(),
        final(storage)@ == owned_by(old(storage)@, *hash, *new_owner),
{
    write_glyph_owner(storage, hash, new_owner);
    remove_glyph_offer(storage, hash);
}

/// Writes back the bids for a glyph at a price, removing an empty list.
fn write_bids(storage: &mut Storage, hash: &Hash32, asset: &Address, amount: i128, bids: &Vec<Address>)
    requires
        old(storage).wf(),
    ensures
        final(storage).wf(),
        final(storage)@ == with_bids(old(storage)@, AssetKey { hash: *hash, asset: *asset, amount }, bids@),
{
    if bids.len() == 0 {
        remove_asset_offers_by_asset(storage, hash, asset, amount);
    } else {
        write_asset_offers_by_asset(storage, hash, asset, amount, bids);
    }
}

/// Records an offer; see `create_outcome`.
pub fn offer_post_create(storage: &mut Storage, this: Address, offer: OfferCreate) -> (r: Result<
    Vec<Action>,
    Failure,
>)
    requires
        old(storage).wf(),
    ensures
        final(storage).wf(),
        match create_outcome(old(storage)@, this, offer) {
            Ok((s, a)) => r is Ok && r->Ok_0@ == a && final(storage)@ == s,
            Err(f) => r is Err && r->Err_0 == f && final(storage)@ == old(storage)@,
        },
{
    let mut actions: Vec<Action> = Vec::new();
    match offer {
        OfferCreate::Glyph(sell, buy) => {
            match glyph_verify_ownership(storage, &sell, &mut actions) {
                Ok(_) => {},
                Err(f) => {
                    return Err(f);
                },
            }
            let mut offers = read_offers_by_glyph(storage, &sell);
            match binary_search(&offers, &buy) {
                Err(i) => {
                    offers.insert(i, buy);
                },
                Ok(_) => {
                    return Err(Failure::Refused(Error::NotEmpty));
                },
            }
            write_offers_by_glyph(storage, &sell, offers);
            proof {
                assert(actions@ =~= seq![Action::RequireAuth(old(storage)@.owners[sell])]);
            }
            Ok(actions)
        },
        OfferCreate::Asset(buy, owner, asset, amount) => {
            actions.push(Action::RequireAuth(owner));
            actions.push(Action::Transfer { token: asset, from: owner, to: this, amount });
            let mut bids = match read_asset_offers_by_asset(storage, &buy, &asset, amount) {
                Some(v) => v,
                None => Vec::new(),
            };
            if address_in(&bids, &owner) {
                return Err(Failure::Refused(Error::NotEmpty));
            }
            bids.push(owner);
            write_asset_offers_by_asset(storage, &buy, &asset, amount, &bids);
            proof {
                assert(actions@ =~= seq![
                    Action::RequireAuth(owner),
                    Action::Transfer { token: asset, from: owner, to: this, amount },
                ]);
            }
            Ok(actions)
        },
    }
}

/// The steps of posting an offer; see `post_outcome`. On a failure the
/// storage may be left part-way: `offer_post` runs them on a copy.
fn post_steps(storage: &mut Storage, this: Address, sell: Offer, buy: Offer) -> (r: Result<
    Vec<Action>,
    Failure,
>)
    requires
        old(storage).wf(),
    ensures
        final(storage).wf(),
        match post_outcome(old(storage)@, this, sell, buy) {
            Ok((s, a)) => r is Ok && r->Ok_0@ == a && final(storage)@ == s,
            Err(f) => r is Err && r->Err_0 == f,
        },
{
    match buy {
        Offer::Glyph(buy_glyph_hash) => {
            let target = match sell {
                Offer::Glyph(sell_glyph_hash) => Offer::Glyph(sell_glyph_hash),
                Offer::AssetSell(_, sell_asset_address, amount) => Offer::Asset(
                    sell_asset_address,
                    amount,
                ),
                _ => {
                    return Err(Failure::Refused(Error::NotPermitted));
                },
            };
            let mut offers = read_offers_by_glyph(storage, &buy_glyph_hash);
            match binary_search(&offers, &target) {
                Ok(offer_index) => {
                    let buy_glyph_owner_address = match read_glyph_owner(storage, &buy_glyph_hash) {
                        Some(a) => a,
                        None => {
                            return Err(Failure::Refused(Error::NotFound));
                        },
                    };
                    offers.remove(offer_index);
                    write_offers_by_glyph(storage, &buy_glyph_hash, offers);
                    match sell {
                        Offer::Glyph(sell_glyph_hash) => {
                            let mut actions: Vec<Action> = Vec::new();
                            let sell_glyph_owner_address = match glyph_verify_ownership(
                                storage,
                                &sell_glyph_hash,
                                &mut actions,
                            ) {
                                Ok(a) => a,
                                Err(f) => {
                                    return Err(f);
                                },
                            };
                            transfer_ownership(storage, &sell_glyph_hash, &buy_glyph_owner_address);
                            transfer_ownership(storage, &buy_glyph_hash, &sell_glyph_owner_address);
                            proof {
                                assert(actions@ =~= seq![
                                    Action::RequireAuth(sell_glyph_owner_address),
                                ]);
                            }
                            Ok(actions)
                        },
                        Offer::AssetSell(sell_asset_owner_address, sell_asset_address, amount) => {
                            let mut actions: Vec<Action> = Vec::new();
                            actions.push(Action::RequireAuth(sell_asset_owner_address));
                            let mut pay = match reward_minter_and_miners(
                                storage,
                                this,
                                buy_glyph_owner_address,
                                &buy_glyph_hash,
                                amount,
                                sell_asset_address,
                                Some(sell_asset_owner_address),
                            ) {
                                Ok(p) => p,
                                Err(f) => {
                                    return Err(f);
                                },
                            };
                            actions.append(&mut pay);
                            transfer_ownership(storage, &buy_glyph_hash, &sell_asset_owner_address);
                            Ok(actions)
                        },
                        _ => Err(Failure::Refused(Error::NotPermitted)),
                    }
                },
                Err(_) => match sell {
                    Offer::Glyph(sell_glyph_hash) => offer_post_create(
                        storage,
                        this,
                        OfferCreate::Glyph(sell_glyph_hash, buy),
                    ),
                    Offer::AssetSell(sell_asset_owner_address, sell_asset_address, amount) => {
                        offer_post_create(
                            storage,
                            this,
                            OfferCreate::Asset(
                                buy_glyph_hash,
                                sell_asset_owner_address,
                                sell_asset_address,
                                amount,
                            ),
                        )
                    },
                    _ => Err(Failure::Refused(Error::NotPermitted)),
                },
            }
        },
        Offer::Asset(buy_asset_address, amount) => match sell {
            Offer::Glyph(sell_glyph_hash) => {
                let mut bids = match read_asset_offers_by_asset(
                    storage,
                    &sell_glyph_hash,
                    &buy_asset_address,
                    amount,
                ) {
                    Some(v) => v,
                    None => Vec::new(),
                };
                if bids.len() == 0 {
                    return offer_post_create(storage, this, OfferCreate::Glyph(sell_glyph_hash, buy));
                }
                let mut actions: Vec<Action> = Vec::new();
                let sell_glyph_owner_address = match glyph_verify_ownership(
                    storage,
                    &sell_glyph_hash,
                    &mut actions,
                ) {
                    Ok(a) => a,
                    Err(f) => {
                        return Err(f);
                    },
                };
                let mut pay = match reward_minter_and_miners(
                    storage,
                    this,
                    sell_glyph_owner_address,
                    &sell_glyph_hash,
                    amount,
                    buy_asset_address,
                    None,
                ) {
                    Ok(p) => p,
                    Err(f) => {
                        return Err(f);
                    },
                };
                actions.append(&mut pay);
                let ghost bv = bids@;
                let buy_asset_owner = bids.remove(0);
                proof {
                    assert(bids@ =~= bv.drop_first());
                }
                write_bids(storage, &sell_glyph_hash, &buy_asset_address, amount, &bids);
                transfer_ownership(storage, &sell_glyph_hash, &buy_asset_owner);
                Ok(actions)
            },
            _ => Err(Failure::Refused(Error::NotPermitted)),
        },
        _ => Err(Failure::Refused(Error::NotPermitted)),
    }
}

/// Posts an offer; see `post_outcome`. A failure leaves the storage as it was.
pub fn offer_post(storage: &mut Storage, this: Address, sell: Offer, buy: Offer) -> (r: Result<
    Vec<Action>,
    Failure,
>)
    requires
        old(storage).wf(),
    ensures
        final(storage).wf(),
        match post_outcome(old(storage)@, this, sell, buy) {
            Ok((s, a)) => r is Ok && r->Ok_0@ == a && final(storage)@ == s,
            Err(f) => r is Err && r->Err_0 == f && final(storage)@ == old(storage)@,
        },
{
    let mut work = storage.duplicate();
    let r = post_steps(&mut work, this, sell, buy);
    if r.is_ok() {
        *storage = work;
    }
    r
}

/// Withdraws offers; see `delete_outcome`.
pub fn offer_delete(storage: &mut Storage, this: Address, sell: Offer, buy: Option<Offer>) -> (r:
    Result<Vec<Action>, Failure>)
    requires
        old(storage).wf(),
    ensures
        final(storage).wf(),
        match delete_outcome(old(storage)@, this, sell, buy) {
            Ok((s, a)) => r is Ok && r->Ok_0@ == a && final(storage)@ == s,
            Err(f) => r is Err && r->Err_0 == f && final(storage)@ == old(storage)@,
        },
{
    let mut actions: Vec<Action> = Vec::new();
    match sell {
        Offer::Glyph(glyph_hash) => {
            match glyph_verify_ownership(storage, &glyph_hash, &mut actions) {
                Ok(_) => {},
                Err(f) => {
                    return Err(f);
                },
            }
            proof {
                assert(actions@ =~= seq![Action::RequireAuth(old(storage)@.owners[glyph_hash])]);
            }
            let mut offers = read_offers_by_glyph(storage, &glyph_hash);
            match buy {
                Some(b) => match binary_search(&offers, &b) {
                    Ok(offer_index) => {
                        offers.remove(offer_index);
                        write_offers_by_glyph(storage, &glyph_hash, offers);
                        Ok(actions)
                    },
                    Err(_) => Err(Failure::Refused(Error::NotFound)),
                },
                None => {
                    remove_glyph_offer(storage, &glyph_hash);
                    Ok(actions)
                },
            }
        },
        Offer::AssetSell(asset_owner_address, asset_address, amount) => {
            actions.push(Action::RequireAuth(asset_owner_address));
            match buy {
                Some(Offer::Glyph(glyph_hash)) => {
                    let mut bids = match read_asset_offers_by_asset(
                        storage,
                        &glyph_hash,
                        &asset_address,
                        amount,
                    ) {
                        Some(v) => v,
                        None => {
                            return Err(Failure::Refused(Error::NotFound));
                        },
                    };
                    match binary_search(&bids, &asset_owner_address) {
                        Ok(offer_index) => {
                            actions.push(
                                Action::Transfer {
                                    token: asset_address,
                                    from: this,
                                    to: asset_owner_address,
                                    amount,
                                },
                            );
                            bids.remove(offer_index);
                            write_bids(storage, &glyph_hash, &asset_address, amount, &bids);
                            proof {
                                assert(actions@ =~= seq![
                                    Action::RequireAuth(asset_owner_address),
                                    Action::Transfer {
                                        token: asset_address,
                                        from: this,
                                        to: asset_owner_address,
                                        amount,
                                    },
                                ]);
                            }
                            Ok(actions)
                        },
                        Err(_) => Err(Failure::Refused(Error::NotFound)),
                    }
                },
                Some(_) => Err(Failure::Refused(Error::NotPermitted)),
                None => Err(Failure::Refused(Error::MissingBuy)),
            }
        },
        _ => Err(Failure::Refused(Error::NotPermitted)),
    }
}

/// Looks offers up; see `get_result`.
pub fn offers_get(storage: &Storage, sell: Offer, buy: Option<Offer>) -> (r: Result<(), Error>)
    requires
        storage.wf(),
    ensures
        r == get_result(storage@, sell, buy),
{
    match sell {
        Offer::Glyph(glyph_hash) => {
            let offers = read_offers_by_glyph(storage, &glyph_hash);
            let found = match buy {
                None => offers.len() != 0,
                Some(b) => binary_search(&offers, &b).is_ok(),
            };
            if found {
                Ok(())
            } else {
                Err(Error::NotFound)
            }
        },
        Offer::Asset(asset_hash, amount) => match buy {
            Some(Offer::Glyph(glyph_hash)) => {
                if has_asset_offers_by_asset(storage, &glyph_hash, &asset_hash, amount) {
                    Ok(())
                } else {
                    Err(Error::NotFound)
                }
            },
            Some(_) => Err(Error::NotPermitted),
            None => Err(Error::MissingBuy),
        },
        Offer::AssetSell(seller_address, asset_hash, amount) => match buy {
            Some(Offer::Glyph(glyph_hash)) => {
                let bids = match read_asset_offers_by_asset(storage, &glyph_hash, &asset_hash, amount) {
                    Some(v) => v,
                    None => {
                        return Err(Error::NotFound);
                    },
                };
                if address_in(&bids, &seller_address) {
                    return Ok(());
                }
                Err(Error::NotFound)
            },
            Some(_) => Err(Error::NotPermitted),
            None => Err(Error::MissingBuy),
        },
    }
}

} // verus!

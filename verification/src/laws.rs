//! What holds of the contract across its operations: the exchange keeps its
//! books in order, an offer posted can be found and withdrawn, a duplicate is
//! refused, an escrowed price is paid out in full, glyphs and bids move only
//! with their owners' authorization, moving colors between two holders
//! neither makes nor loses any, and scraping gives back what minting spent.
//! It also says what single operations are for: a sale pays each miner by
//! the pixels its colors paint, a withdrawn bid leaves the other bids, a
//! bidder is found wherever it stands among the bids, mining credits the
//! receiver, and a mint step keeps the pixels a glyph had.

use vstd::prelude::*;
use crate::order::{Ordered, search, search_from, strictly_sorted, lemma_insert_sorted,
    lemma_remove_sorted, lemma_search_sorted};
use crate::storage::{StorageView, empty_view, offers_of};
use crate::types::{Action, Address, AssetKey, ColorKey, ColorsView, Error, Failure, Hash32, Offer,
    OfferCreate, colors_wf};
use crate::offers::{bids_of, count_indexes, create_outcome, delete_outcome, get_result, miner_royalty,
    mul_ceil, owned_by, pay_miners, pay_step, post_outcome, royalties, with_bids};
use crate::contract::{balance_in, credited, glyph_transfer_outcome, initialize_outcome, key, lemma_credited_other,
    mine_outcome, mine_overflows, transferred};
use crate::glyphs::{add_colors, add_indexes, balance_of, debit_colors, debit_miners, glyph_or_default,
    lemma_colors_wf_set, merge_colors, mint_outcome, scrape_colors, scrape_miners, scrape_outcome};
use crate::sorted_map::{entries_remove, entries_set, has_key, is_place, key_index, keys_increase, lemma_entries,
    lemma_entries_remove, lemma_entries_set, lemma_place_unique, map_of};

verus! {

/// Every glyph's sell offers are in strictly increasing order.
pub open spec fn offers_sorted(s: StorageView) -> bool {
    forall|h: Hash32| #[trigger] s.glyph_offers.contains_key(h) ==> strictly_sorted(s.glyph_offers[h])
}

/// No bidder bids twice for a glyph at one price.
pub open spec fn bids_distinct(s: StorageView) -> bool {
    forall|k: AssetKey| #[trigger] s.asset_offers.contains_key(k) ==> s.asset_offers[k].no_duplicates()
}

/// The books of the exchange are in order.
pub open spec fn exchange_wf(s: StorageView) -> bool {
    offers_sorted(s) && bids_distinct(s)
}

/// The counter-offer that a posted offer meets, if any: the owner of the
/// glyph `buy` accepts what `sell` gives, or someone bid `buy` for the glyph
/// `sell`.
pub open spec fn meets_counter_offer(s: StorageView, sell: Offer, buy: Offer) -> bool {
    match (sell, buy) {
        (Offer::Glyph(sh), Offer::Glyph(bh)) => offers_of(s, bh).contains(Offer::Glyph(sh)),
        (Offer::AssetSell(_, a, amount), Offer::Glyph(bh)) => offers_of(s, bh).contains(
            Offer::Asset(a, amount),
        ),
        (Offer::Glyph(sh), Offer::Asset(a, amount)) => bids_of(
            s,
            AssetKey { hash: sh, asset: a, amount },
        ).len() != 0,
        _ => false,
    }
}

/// A search that ends on an element has found an element equal to `x`.
proof fn lemma_search_found<T: Ordered>(s: Seq<T>, x: T, left: int, right: int)
    ensures
        search_from(s, x, left, right) matches Ok(i) ==> 0 <= i < s.len() && s[i] == x,
    decreases right - left,
{
    if 0 <= left < right <= s.len() {
        let mid = left + (right - left) / 2;
        if s[mid].precedes(x) {
            lemma_search_found(s, x, mid + 1, right);
        } else if x.precedes(s[mid]) {
            lemma_search_found(s, x, left, mid);
        } else {
            T::lemma_total(s[mid], x);
        }
    }
}

proof fn lemma_offers_of_sorted(s: StorageView, h: Hash32)
    requires
        offers_sorted(s),
    ensures
        strictly_sorted(offers_of(s, h)),
{
    if s.glyph_offers.contains_key(h) {
    }
}

proof fn lemma_bids_of_distinct(s: StorageView, k: AssetKey)
    requires
        bids_distinct(s),
    ensures
        bids_of(s, k).no_duplicates(),
{
    if s.asset_offers.contains_key(k) {
    }
}

proof fn lemma_owned_by_keeps(s: StorageView, h: Hash32, o: Address)
    requires
        exchange_wf(s),
    ensures
        exchange_wf(owned_by(s, h, o)),
{
    let t = owned_by(s, h, o);
    assert forall|g: Hash32| #[trigger] t.glyph_offers.contains_key(g) implies strictly_sorted(
        t.glyph_offers[g],
    ) by {
        assert(s.glyph_offers.contains_key(g));
    }
}

proof fn lemma_with_bids_keeps(s: StorageView, k: AssetKey, bids: Seq<Address>)
    requires
        exchange_wf(s),
        bids.no_duplicates(),
    ensures
        exchange_wf(with_bids(s, k, bids)),
{
    let t = with_bids(s, k, bids);
    assert forall|j: AssetKey| #[trigger] t.asset_offers.contains_key(j) implies t.asset_offers[j].no_duplicates() by {
        if j != k {
            assert(s.asset_offers.contains_key(j));
        }
    }
}

proof fn lemma_set_offers_keeps(s: StorageView, h: Hash32, offers: Seq<Offer>)
    requires
        exchange_wf(s),
        strictly_sorted(offers),
    ensures
        exchange_wf(StorageView { glyph_offers: s.glyph_offers.insert(h, offers), ..s }),
{
    let t = StorageView { glyph_offers: s.glyph_offers.insert(h, offers), ..s };
    assert forall|g: Hash32| #[trigger] t.glyph_offers.contains_key(g) implies strictly_sorted(
        t.glyph_offers[g],
    ) by {
        if g != h {
            assert(s.glyph_offers.contains_key(g));
        }
    }
}

proof fn lemma_drop_first_distinct(bids: Seq<Address>)
    requires
        bids.no_duplicates(),
        bids.len() > 0,
    ensures
        bids.drop_first().no_duplicates(),
{
    let d = bids.drop_first();
    assert forall|i: int, j: int| 0 <= i < d.len() && 0 <= j < d.len() && i != j implies d[i] != d[j] by {
        assert(d[i] == bids[i + 1] && d[j] == bids[j + 1]);
    }
}

proof fn lemma_remove_distinct(bids: Seq<Address>, i: int)
    requires
        bids.no_duplicates(),
        0 <= i < bids.len(),
    ensures
        bids.remove(i).no_duplicates(),
        !bids.remove(i).contains(bids[i]),
{
    let d = bids.remove(i);
    assert forall|a: int, b: int| 0 <= a < d.len() && 0 <= b < d.len() && a != b implies d[a] != d[b] by {
        let a1 = if a < i { a } else { a + 1 };
        let b1 = if b < i { b } else { b + 1 };
        assert(d[a] == bids[a1] && d[b] == bids[b1]);
    }
    if d.contains(bids[i]) {
        let a = choose|a: int| 0 <= a < d.len() && d[a] == bids[i];
        let a1 = if a < i { a } else { a + 1 };
        assert(d[a] == bids[a1]);
    }
}

proof fn lemma_push_distinct(bids: Seq<Address>, o: Address)
    requires
        bids.no_duplicates(),
        !bids.contains(o),
    ensures
        bids.push(o).no_duplicates(),
{
    let d = bids.push(o);
    assert forall|a: int, b: int| 0 <= a < d.len() && 0 <= b < d.len() && a != b implies d[a] != d[b] by {
        if a == bids.len() {
            assert(bids[b] == d[b]);
        } else if b == bids.len() {
            assert(bids[a] == d[a]);
        }
    }
}

proof fn lemma_create_keeps(s: StorageView, this: Address, offer: OfferCreate)
    requires
        exchange_wf(s),
        create_outcome(s, this, offer) is Ok,
    ensures
        exchange_wf(create_outcome(s, this, offer)->Ok_0.0),
{
    match offer {
        OfferCreate::Glyph(sell, buy) => {
            let offers = offers_of(s, sell);
            lemma_offers_of_sorted(s, sell);
            lemma_search_sorted(offers, buy);
            let i = search(offers, buy)->Err_0;
            lemma_insert_sorted(offers, buy, i);
            lemma_set_offers_keeps(s, sell, offers.insert(i, buy));
        },
        OfferCreate::Asset(h, o, a, amount) => {
            let k = AssetKey { hash: h, asset: a, amount };
            lemma_bids_of_distinct(s, k);
            lemma_push_distinct(bids_of(s, k), o);
            lemma_with_bids_keeps(s, k, bids_of(s, k).push(o));
        },
    }
}

/// Posting an offer keeps the books of the exchange in order: sell offers
/// stay sorted and no bidder appears twice among the bids for a glyph at a price.
pub proof fn law_post_keeps_books(s: StorageView, this: Address, sell: Offer, buy: Offer)
    requires
        exchange_wf(s),
        post_outcome(s, this, sell, buy) is Ok,
    ensures
        exchange_wf(post_outcome(s, this, sell, buy)->Ok_0.0),
{
    match buy {
        Offer::Glyph(bh) => {
            let t = match sell {
                Offer::Glyph(sh) => Offer::Glyph(sh),
                Offer::AssetSell(_, a, amount) => Offer::Asset(a, amount),
                _ => Offer::Glyph(bh),
            };
            let offers = offers_of(s, bh);
            match search(offers, t) {
                Ok(idx) => {
                    lemma_offers_of_sorted(s, bh);
                    lemma_search_sorted(offers, t);
                    lemma_remove_sorted(offers, idx);
                    lemma_set_offers_keeps(s, bh, offers.remove(idx));
                    let s1 = StorageView { glyph_offers: s.glyph_offers.insert(bh, offers.remove(idx)), ..s };
                    match sell {
                        Offer::Glyph(sh) => {
                            let buy_owner = s.owners[bh];
                            let sell_owner = s1.owners[sh];
                            lemma_owned_by_keeps(s1, sh, buy_owner);
                            lemma_owned_by_keeps(owned_by(s1, sh, buy_owner), bh, sell_owner);
                        },
                        Offer::AssetSell(so, _, _) => {
                            lemma_owned_by_keeps(s1, bh, so);
                        },
                        _ => {},
                    }
                },
                Err(_) => match sell {
                    Offer::Glyph(sh) => lemma_create_keeps(s, this, OfferCreate::Glyph(sh, buy)),
                    Offer::AssetSell(so, a, amount) => lemma_create_keeps(
                        s,
                        this,
                        OfferCreate::Asset(bh, so, a, amount),
                    ),
                    _ => {},
                },
            }
        },
        Offer::Asset(ba, amount) => match sell {
            Offer::Glyph(sh) => {
                let k = AssetKey { hash: sh, asset: ba, amount };
                let bids = bids_of(s, k);
                if bids.len() == 0 {
                    lemma_create_keeps(s, this, OfferCreate::Glyph(sh, buy));
                } else {
                    lemma_bids_of_distinct(s, k);
                    lemma_drop_first_distinct(bids);
                    lemma_with_bids_keeps(s, k, bids.drop_first());
                    lemma_owned_by_keeps(with_bids(s, k, bids.drop_first()), sh, bids[0]);
                }
            },
            _ => {},
        },
        _ => {},
    }
}

/// Withdrawing offers keeps the books of the exchange in order.
pub proof fn law_delete_keeps_books(s: StorageView, this: Address, sell: Offer, buy: Option<Offer>)
    requires
        exchange_wf(s),
        delete_outcome(s, this, sell, buy) is Ok,
    ensures
        exchange_wf(delete_outcome(s, this, sell, buy)->Ok_0.0),
{
    match sell {
        Offer::Glyph(gh) => {
            let offers = offers_of(s, gh);
            match buy {
                Some(b) => {
                    let i = search(offers, b)->Ok_0;
                    lemma_offers_of_sorted(s, gh);
                    lemma_search_sorted(offers, b);
                    lemma_remove_sorted(offers, i);
                    lemma_set_offers_keeps(s, gh, offers.remove(i));
                },
                None => {
                    let t = StorageView { glyph_offers: s.glyph_offers.remove(gh), ..s };
                    assert forall|g: Hash32| #[trigger] t.glyph_offers.contains_key(g) implies strictly_sorted(
                        t.glyph_offers[g],
                    ) by {
                        assert(s.glyph_offers.contains_key(g));
                    }
                },
            }
        },
        Offer::AssetSell(owner, asset, amount) => {
            if let Some(Offer::Glyph(gh)) = buy {
                let k = AssetKey { hash: gh, asset, amount };
                let bids = s.asset_offers[k];
                let i = search(bids, owner)->Ok_0;
                lemma_search_found(bids, owner, 0, bids.len() as int);
                lemma_remove_distinct(bids, i);
                lemma_with_bids_keeps(s, k, bids.remove(i));
            }
        },
        _ => {},
    }
}


proof fn lemma_not_found<T: Ordered>(s: Seq<T>, x: T)
    requires
        !s.contains(x),
    ensures
        search(s, x) is Err,
{
    lemma_search_found(s, x, 0, s.len() as int);
    if let Ok(i) = search(s, x) {
        assert(s[i] == x);
    }
}

/// A sell offer that meets no counter-offer is recorded: looking it up
/// afterwards finds it.
pub proof fn law_posted_offer_is_found(s: StorageView, this: Address, h: Hash32, buy: Offer)
    requires
        exchange_wf(s),
        post_outcome(s, this, Offer::Glyph(h), buy) is Ok,
        !meets_counter_offer(s, Offer::Glyph(h), buy),
    ensures
        get_result(post_outcome(s, this, Offer::Glyph(h), buy)->Ok_0.0, Offer::Glyph(h), Some(buy))
            == Ok::<(), Error>(()),
{
    if let Offer::Glyph(bh) = buy {
        lemma_not_found(offers_of(s, bh), Offer::Glyph(h));
    }
    let offers = offers_of(s, h);
    lemma_offers_of_sorted(s, h);
    lemma_search_sorted(offers, buy);
    let i = search(offers, buy)->Err_0;
    lemma_insert_sorted(offers, buy, i);
    assert(offers.insert(i, buy)[i] == buy);
    lemma_search_sorted(offers.insert(i, buy), buy);
}

/// Posting the same sell offer again, once it is recorded, is refused with
/// `NotEmpty` (a glyph offered for itself is the exception: the second post
/// meets the first and the glyph is swapped with itself).
pub proof fn law_duplicate_offer_is_refused(s: StorageView, this: Address, h: Hash32, buy: Offer)
    requires
        exchange_wf(s),
        buy != Offer::Glyph(h),
        post_outcome(s, this, Offer::Glyph(h), buy) is Ok,
        !meets_counter_offer(s, Offer::Glyph(h), buy),
    ensures
        post_outcome(post_outcome(s, this, Offer::Glyph(h), buy)->Ok_0.0, this, Offer::Glyph(h), buy)
            == Err::<(StorageView, Seq<Action>), Failure>(Failure::Refused(Error::NotEmpty)),
{
    let s2 = post_outcome(s, this, Offer::Glyph(h), buy)->Ok_0.0;
    law_post_keeps_books(s, this, Offer::Glyph(h), buy);
    law_posted_offer_is_found(s, this, h, buy);
    if let Offer::Glyph(bh) = buy {
        assert(offers_of(s2, bh) == offers_of(s, bh));
        lemma_not_found(offers_of(s2, bh), Offer::Glyph(h));
    }
    lemma_offers_of_sorted(s2, h);
    lemma_search_sorted(offers_of(s2, h), buy);
}

/// A bid that meets no sell offer is recorded: looking it up afterwards,
/// by price or by bidder, finds it.
pub proof fn law_posted_bid_is_found(
    s: StorageView,
    this: Address,
    bidder: Address,
    asset: Address,
    amount: i128,
    h: Hash32,
)
    requires
        post_outcome(s, this, Offer::AssetSell(bidder, asset, amount), Offer::Glyph(h)) is Ok,
        !meets_counter_offer(s, Offer::AssetSell(bidder, asset, amount), Offer::Glyph(h)),
    ensures
        get_result(
            post_outcome(s, this, Offer::AssetSell(bidder, asset, amount), Offer::Glyph(h))->Ok_0.0,
            Offer::AssetSell(bidder, asset, amount),
            Some(Offer::Glyph(h)),
        ) == Ok::<(), Error>(()),
        get_result(
            post_outcome(s, this, Offer::AssetSell(bidder, asset, amount), Offer::Glyph(h))->Ok_0.0,
            Offer::Asset(asset, amount),
            Some(Offer::Glyph(h)),
        ) == Ok::<(), Error>(()),
{
    lemma_not_found(offers_of(s, h), Offer::Asset(asset, amount));
    let k = AssetKey { hash: h, asset, amount };
    assert(bids_of(s, k).push(bidder).last() == bidder);
}

/// Bidding again, once the bid is recorded, is refused with `NotEmpty`.
pub proof fn law_duplicate_bid_is_refused(
    s: StorageView,
    this: Address,
    bidder: Address,
    asset: Address,
    amount: i128,
    h: Hash32,
)
    requires
        post_outcome(s, this, Offer::AssetSell(bidder, asset, amount), Offer::Glyph(h)) is Ok,
        !meets_counter_offer(s, Offer::AssetSell(bidder, asset, amount), Offer::Glyph(h)),
    ensures
        post_outcome(
            post_outcome(s, this, Offer::AssetSell(bidder, asset, amount), Offer::Glyph(h))->Ok_0.0,
            this,
            Offer::AssetSell(bidder, asset, amount),
            Offer::Glyph(h),
        ) == Err::<(StorageView, Seq<Action>), Failure>(Failure::Refused(Error::NotEmpty)),
{
    let s2 = post_outcome(s, this, Offer::AssetSell(bidder, asset, amount), Offer::Glyph(h))->Ok_0.0;
    lemma_not_found(offers_of(s, h), Offer::Asset(asset, amount));
    assert(offers_of(s2, h) == offers_of(s, h));
    let k = AssetKey { hash: h, asset, amount };
    assert(bids_of(s, k).push(bidder).last() == bidder);
}

/// When a posted sell offer meets its counter-offer, the trade is made and
/// the glyph offered changes hands: it is no longer offered at all.
pub proof fn law_traded_glyph_is_no_longer_offered(
    s: StorageView,
    this: Address,
    h: Hash32,
    buy: Offer,
)
    requires
        exchange_wf(s),
        post_outcome(s, this, Offer::Glyph(h), buy) is Ok,
        meets_counter_offer(s, Offer::Glyph(h), buy),
    ensures
        get_result(post_outcome(s, this, Offer::Glyph(h), buy)->Ok_0.0, Offer::Glyph(h), None)
            == Err::<(), Error>(Error::NotFound),
        get_result(post_outcome(s, this, Offer::Glyph(h), buy)->Ok_0.0, Offer::Glyph(h), Some(buy))
            == Err::<(), Error>(Error::NotFound),
{
    if let Offer::Glyph(bh) = buy {
        lemma_offers_of_sorted(s, bh);
        lemma_search_sorted(offers_of(s, bh), Offer::Glyph(h));
    }
}

/// A withdrawn sell offer is gone: looking it up afterwards finds nothing.
/// Withdrawing all of a glyph's offers leaves it with none.
pub proof fn law_withdrawn_offer_is_gone(s: StorageView, this: Address, h: Hash32, buy: Option<Offer>)
    requires
        exchange_wf(s),
        delete_outcome(s, this, Offer::Glyph(h), buy) is Ok,
    ensures
        get_result(delete_outcome(s, this, Offer::Glyph(h), buy)->Ok_0.0, Offer::Glyph(h), buy)
            == Err::<(), Error>(Error::NotFound),
{
    if let Some(b) = buy {
        let offers = offers_of(s, h);
        lemma_offers_of_sorted(s, h);
        lemma_search_sorted(offers, b);
        let i = search(offers, b)->Ok_0;
        lemma_remove_sorted(offers, i);
        assert(!offers.remove(i).contains(b)) by {
            if offers.remove(i).contains(b) {
                let j = choose|j: int| 0 <= j < offers.remove(i).len() && offers.remove(i)[j] == b;
                if j < i {
                    assert(offers[j] == b);
                    lemma_sorted_distinct(offers, j, i);
                } else {
                    assert(offers[j + 1] == b);
                    lemma_sorted_distinct(offers, i, j + 1);
                }
            }
        }
        lemma_not_found(offers.remove(i), b);
    }
}

/// A withdrawn bid is gone: looking the bidder up afterwards finds nothing.
pub proof fn law_withdrawn_bid_is_gone(
    s: StorageView,
    this: Address,
    bidder: Address,
    asset: Address,
    amount: i128,
    h: Hash32,
)
    requires
        exchange_wf(s),
        delete_outcome(s, this, Offer::AssetSell(bidder, asset, amount), Some(Offer::Glyph(h))) is Ok,
    ensures
        get_result(
            delete_outcome(s, this, Offer::AssetSell(bidder, asset, amount), Some(Offer::Glyph(h)))->Ok_0.0,
            Offer::AssetSell(bidder, asset, amount),
            Some(Offer::Glyph(h)),
        ) == Err::<(), Error>(Error::NotFound),
{
    let k = AssetKey { hash: h, asset, amount };
    let bids = s.asset_offers[k];
    let i = search(bids, bidder)->Ok_0;
    lemma_search_found(bids, bidder, 0, bids.len() as int);
    lemma_remove_distinct(bids, i);
}

/// Two positions of a strictly sorted sequence hold different elements.
proof fn lemma_sorted_distinct(s: Seq<Offer>, i: int, j: int)
    requires
        strictly_sorted(s),
        0 <= i < j < s.len(),
    ensures
        s[i] != s[j],
{
    Offer::lemma_irreflexive(s[i]);
}


/// The sum of the amounts of the transfers among `acts`.
pub open spec fn paid(acts: Seq<Action>) -> int
    decreases acts.len(),
{
    if acts.len() == 0 {
        0
    } else {
        paid(acts.drop_last()) + match acts.last() {
            Action::Transfer { amount, .. } => amount as int,
            _ => 0,
        }
    }
}

/// Every action among `acts` is a transfer of `token` out of `from`.
pub open spec fn all_transfers_from(acts: Seq<Action>, token: Address, from: Address) -> bool {
    forall|i: int| 0 <= i < acts.len() ==> is_transfer_from(#[trigger] acts[i], token, from)
}

/// `a` is a transfer of `token` out of `from`.
pub open spec fn is_transfer_from(a: Action, token: Address, from: Address) -> bool {
    match a {
        Action::Transfer { token: t, from: f, .. } => t == token && f == from,
        _ => false,
    }
}

proof fn lemma_pay_miners_escrow(
    st: (int, Seq<Action>),
    ms: ColorsView,
    token: Address,
    this: Address,
    rate: i128,
    amount: i128,
    length: u32,
)
    requires
        pay_miners(st, ms, token, None, this, rate, amount, length) is Some,
        all_transfers_from(st.1, token, this),
        i128::MIN <= st.0 <= i128::MAX,
    ensures
        ({
            let st2 = pay_miners(st, ms, token, None, this, rate, amount, length)->0;
            &&& st2.0 + paid(st2.1) == st.0 + paid(st.1)
            &&& i128::MIN <= st2.0 <= i128::MAX
            &&& all_transfers_from(st2.1, token, this)
        }),
    decreases ms.len(),
{
    if ms.len() > 0 {
        lemma_pay_miners_escrow(st, ms.drop_last(), token, this, rate, amount, length);
        let st1 = pay_miners(st, ms.drop_last(), token, None, this, rate, amount, length)->0;
        let st2 = pay_miners(st, ms, token, None, this, rate, amount, length)->0;
        assert(st2.1.drop_last() == st1.1);
        assert forall|i: int| 0 <= i < st2.1.len() implies is_transfer_from(#[trigger] st2.1[i], token, this) by {
            if i < st1.1.len() {
                assert(st2.1[i] == st1.1[i]);
            }
        }
    }
}

/// A sale paid out of escrow pays out exactly the escrowed price: the
/// royalties and what is left to the seller are all transfers of the token
/// out of the contract, and they sum to the price.
pub proof fn law_escrow_is_paid_in_full(
    s: StorageView,
    this: Address,
    seller: Address,
    h: Hash32,
    amount: i128,
    asset: Address,
)
    requires
        royalties(s, this, seller, h, amount, asset, None) is Ok,
    ensures
        paid(royalties(s, this, seller, h, amount, asset, None)->Ok_0) == amount,
        all_transfers_from(royalties(s, this, seller, h, amount, asset, None)->Ok_0, asset, this),
{
    let cfg = s.config->0;
    let minter_amount = crate::offers::mul_ceil(cfg.minter_royalty_rate, amount, 100)->0;
    let st0: (int, Seq<Action>) = (amount as int, Seq::empty());
    let st1 = pay_step(st0, asset, None, this, s.minters[h], minter_amount)->0;
    assert(st1.1.drop_last() =~= Seq::<Action>::empty());
    assert(st1.1 == Seq::<Action>::empty().push(
        Action::Transfer { token: asset, from: this, to: s.minters[h], amount: minter_amount },
    ));
    assert(paid(Seq::<Action>::empty()) == 0);
    assert(paid(st1.1) == minter_amount);
    lemma_pay_miners_escrow(
        st1,
        s.glyphs[h].colors,
        asset,
        this,
        cfg.miner_royalty_rate,
        amount,
        s.glyphs[h].length,
    );
    let st2 = pay_miners(
        st1,
        s.glyphs[h].colors,
        asset,
        None,
        this,
        cfg.miner_royalty_rate,
        amount,
        s.glyphs[h].length,
    )->0;
    let acts = royalties(s, this, seller, h, amount, asset, None)->Ok_0;
    assert(acts.drop_last() == st2.1);
    assert(paid(acts) == paid(st2.1) + st2.0);
    assert forall|i: int| 0 <= i < acts.len() implies is_transfer_from(#[trigger] acts[i], asset, this) by {
        if i < st2.1.len() {
            assert(acts[i] == st2.1[i]);
        }
    }
}

/// The (miner, color) balance of a holder.
pub open spec fn held(m: Map<ColorKey, u32>, miner: Address, owner: Address, color: u32) -> int {
    balance_in(m, key(miner, owner, color)) as int
}

/// Moving colors from one holder to another neither makes nor loses any:
/// for every miner and color, what the two hold together is unchanged, and
/// every other holder's balances are untouched. (A holder moving colors to
/// itself is the exception: each move credits it without debiting it.)
pub proof fn law_color_transfer_conserves(
    m: Map<ColorKey, u32>,
    from: Address,
    to: Address,
    items: Seq<(Address, u32, u32)>,
    miner: Address,
    color: u32,
    other: ColorKey,
)
    requires
        from != to,
        transferred(m, from, to, items) is Ok,
        other.owner != from,
        other.owner != to,
    ensures
        ({
            let m2 = transferred(m, from, to, items)->Ok_0;
            &&& held(m2, miner, from, color) + held(m2, miner, to, color) == held(m, miner, from, color)
                + held(m, miner, to, color)
            &&& balance_in(m2, other) == balance_in(m, other)
        }),
    decreases items.len(),
{
    if items.len() > 0 {
        law_color_transfer_conserves(m, from, to, items.drop_last(), miner, color, other);
    }
}

/// Mining a list of distinct colors credits each by exactly its amount.
pub proof fn law_mining_credits_each_color(
    m: Map<ColorKey, u32>,
    miner: Address,
    to: Address,
    c: Seq<(u32, u32)>,
    i: int,
)
    requires
        keys_increase(c),
        !mine_overflows(m, miner, to, c),
        0 <= i < c.len(),
    ensures
        balance_in(credited(m, miner, to, c), key(miner, to, c[i].0)) == balance_in(
            m,
            key(miner, to, c[i].0),
        ) + c[i].1,
    decreases c.len(),
{
    assert(balance_in(m, key(miner, to, c[i].0)) + c[i].1 <= u32::MAX);
    if i < c.len() - 1 {
        let d = c.drop_last();
        assert(c[i].0 < c.last().0);
        assert(keys_increase(d));
        assert(d[i] == c[i]);
        assert forall|j: int| 0 <= j < d.len() implies balance_in(m, key(miner, to, (#[trigger] d[j]).0))
            + d[j].1 <= u32::MAX by {
            assert(d[j] == c[j]);
        }
        law_mining_credits_each_color(m, miner, to, d, i);
    }
}

/// A glyph minted with a width of its own is minted for good: minting it
/// again is refused with `NotEmpty` until it is scraped.
pub proof fn law_finished_glyph_cannot_be_minted_again(
    s: StorageView,
    h: Hash32,
    minter: Address,
    to: Option<Address>,
    input: ColorsView,
    width: u32,
    minter2: Address,
    to2: Option<Address>,
    input2: ColorsView,
    width2: Option<u32>,
)
    requires
        mint_outcome(s, h, minter, to, input, Some(width)) is Ok,
        width as u8 != 0,
    ensures
        mint_outcome(mint_outcome(s, h, minter, to, input, Some(width))->Ok_0.0, h, minter2, to2, input2, width2)
            == Err::<(StorageView, Seq<Action>), Failure>(Failure::Refused(Error::NotEmpty)),
{
}

/// Scraping a glyph frees it to be minted again: minting it afterwards is
/// not refused as already minted.
pub proof fn law_scraped_glyph_can_be_minted_again(
    s: StorageView,
    to: Option<Address>,
    h: Hash32,
    minter: Address,
    to2: Option<Address>,
    input: ColorsView,
    width: Option<u32>,
)
    requires
        scrape_outcome(s, to, h) is Ok,
    ensures
        mint_outcome(scrape_outcome(s, to, h)->Ok_0.0, h, minter, to2, input, width)
            != Err::<(StorageView, Seq<Action>), Failure>(Failure::Refused(Error::NotEmpty)),
{
}

/// Scraping keeps the books of the exchange in order.
pub proof fn law_scrape_keeps_books(s: StorageView, to: Option<Address>, h: Hash32)
    requires
        exchange_wf(s),
        scrape_outcome(s, to, h) is Ok,
    ensures
        exchange_wf(scrape_outcome(s, to, h)->Ok_0.0),
{
    let t = scrape_outcome(s, to, h)->Ok_0.0;
    assert forall|g: Hash32| #[trigger] t.glyph_offers.contains_key(g) implies strictly_sorted(
        t.glyph_offers[g],
    ) by {
        assert(s.glyph_offers.contains_key(g));
    }
}

/// Minting leaves the exchange alone: sell offers and bids are as they were.
pub proof fn law_mint_leaves_offers(
    s: StorageView,
    h: Hash32,
    minter: Address,
    to: Option<Address>,
    input: ColorsView,
    width: Option<u32>,
)
    requires
        mint_outcome(s, h, minter, to, input, width) is Ok,
    ensures
        mint_outcome(s, h, minter, to, input, width)->Ok_0.0.glyph_offers == s.glyph_offers,
        mint_outcome(s, h, minter, to, input, width)->Ok_0.0.asset_offers == s.asset_offers,
{
}

/// A contract is initialized once: initializing it again is refused with `NotEmpty`.
pub proof fn law_initialized_once(
    s: StorageView,
    owner: Address,
    token: Address,
    fee: Address,
    multiplier: i128,
    owner2: Address,
    token2: Address,
    fee2: Address,
    multiplier2: i128,
)
    requires
        initialize_outcome(s, owner, token, fee, multiplier) is Ok,
    ensures
        initialize_outcome(
            initialize_outcome(s, owner, token, fee, multiplier)->Ok_0.0,
            owner2,
            token2,
            fee2,
            multiplier2,
        ) == Err::<(StorageView, Seq<Action>), Failure>(Failure::Refused(Error::NotEmpty)),
{
}


/// A new contract's books are in order.
pub proof fn law_new_books_in_order()
    ensures
        exchange_wf(empty_view()),
{
}

/// Whatever is done with a glyph (offering it, withdrawing its offers,
/// giving it away, scraping it) is done with its owner's authorization: the
/// glyph has an owner, and the first thing asked of the host is that owner's
/// authorization.
pub proof fn law_glyph_owner_authorizes(
    s: StorageView,
    this: Address,
    h: Hash32,
    buy: Offer,
    withdrawn: Option<Offer>,
    to: Address,
    scrape_to: Option<Address>,
)
    ensures
        post_outcome(s, this, Offer::Glyph(h), buy) matches Ok((_, acts)) ==> s.owners.contains_key(h)
            && acts.len() > 0 && acts[0] == Action::RequireAuth(s.owners[h]),
        delete_outcome(s, this, Offer::Glyph(h), withdrawn) matches Ok((_, acts)) ==> s.owners.contains_key(h)
            && acts.len() > 0 && acts[0] == Action::RequireAuth(s.owners[h]),
        glyph_transfer_outcome(s, to, h) matches Ok((_, acts)) ==> s.owners.contains_key(h) && acts.len() > 0
            && acts[0] == Action::RequireAuth(s.owners[h]),
        scrape_outcome(s, scrape_to, h) matches Ok((_, acts)) ==> s.owners.contains_key(h) && acts.len() > 0
            && acts[0] == Action::RequireAuth(s.owners[h]),
{
}

/// A bid is escrowed, or withdrawn, only with the bidder's authorization.
pub proof fn law_bidder_authorizes(
    s: StorageView,
    this: Address,
    bidder: Address,
    asset: Address,
    amount: i128,
    buy: Offer,
    withdrawn: Option<Offer>,
)
    ensures
        post_outcome(s, this, Offer::AssetSell(bidder, asset, amount), buy) matches Ok((_, acts)) ==> acts.len()
            > 0 && acts[0] == Action::RequireAuth(bidder),
        delete_outcome(s, this, Offer::AssetSell(bidder, asset, amount), withdrawn) matches Ok((_, acts))
            ==> acts.len() > 0 && acts[0] == Action::RequireAuth(bidder),
{
}


proof fn lemma_map_of_push<K: Ordered, W>(s: Seq<(K, W)>, k: K, w: W)
    requires
        keys_increase(s.push((k, w))),
    ensures
        keys_increase(s),
        map_of(s.push((k, w))) == map_of(s).insert(k, w),
{
    let t = s.push((k, w));
    assert forall|i: int, j: int| 0 <= i < j < s.len() implies (#[trigger] s[i]).0.precedes(
        (#[trigger] s[j]).0,
    ) by {
        assert(t[i] == s[i] && t[j] == s[j]);
    }
    lemma_entries(s);
    lemma_entries(t);
    assert(t[s.len() as int] == (k, w));
    assert forall|x: K| #[trigger] map_of(t).contains_key(x) <==> map_of(s).insert(k, w).contains_key(x) by {
        if map_of(t).contains_key(x) && x != k {
            let i = choose|i: int| 0 <= i < t.len() && (#[trigger] t[i]).0 == x;
            assert(t[i] == s[i]);
        }
        if map_of(s).contains_key(x) {
            let i = choose|i: int| 0 <= i < s.len() && (#[trigger] s[i]).0 == x;
            assert(t[i] == s[i]);
        }
    }
    assert forall|x: K| #[trigger] map_of(t).contains_key(x) implies map_of(t)[x] == map_of(s).insert(
        k,
        w,
    )[x] by {
        if x != k {
            let i = choose|i: int| 0 <= i < s.len() && (#[trigger] s[i]).0 == x;
            assert(t[i] == s[i]);
        }
    }
    assert(map_of(t) =~= map_of(s).insert(k, w));
}

proof fn lemma_map_of_drop_first<K: Ordered, W>(s: Seq<(K, W)>)
    requires
        keys_increase(s),
        s.len() > 0,
    ensures
        keys_increase(s.drop_first()),
        !map_of(s.drop_first()).contains_key(s[0].0),
        map_of(s) == map_of(s.drop_first()).insert(s[0].0, s[0].1),
{
    let t = s.drop_first();
    assert forall|i: int, j: int| 0 <= i < j < t.len() implies (#[trigger] t[i]).0.precedes(
        (#[trigger] t[j]).0,
    ) by {
        assert(t[i] == s[i + 1] && t[j] == s[j + 1]);
    }
    lemma_entries(s);
    lemma_entries(t);
    if map_of(t).contains_key(s[0].0) {
        let i = choose|i: int| 0 <= i < t.len() && (#[trigger] t[i]).0 == s[0].0;
        assert(t[i] == s[i + 1]);
        K::lemma_irreflexive(s[0].0);
    }
    assert forall|x: K| #[trigger] map_of(s).contains_key(x) <==> map_of(t).insert(s[0].0, s[0].1).contains_key(x) by {
        if map_of(s).contains_key(x) && x != s[0].0 {
            let i = choose|i: int| 0 <= i < s.len() && (#[trigger] s[i]).0 == x;
            assert(t[i - 1] == s[i]);
        }
        if map_of(t).contains_key(x) {
            let i = choose|i: int| 0 <= i < t.len() && (#[trigger] t[i]).0 == x;
            assert(t[i] == s[i + 1]);
        }
    }
    assert forall|x: K| #[trigger] map_of(s).contains_key(x) implies map_of(s)[x] == map_of(t).insert(
        s[0].0,
        s[0].1,
    )[x] by {
        if x != s[0].0 {
            let i = choose|i: int| 0 <= i < s.len() && (#[trigger] s[i]).0 == x;
            assert(t[i - 1] == s[i]);
        }
    }
    assert(map_of(s) =~= map_of(t).insert(s[0].0, s[0].1));
}

/// The number of pixels of `color` in a miner's colors.
pub open spec fn color_count(cs: Seq<(u32, Seq<u32>)>, color: u32) -> nat {
    if map_of(cs).contains_key(color) {
        map_of(cs)[color].len()
    } else {
        0
    }
}

/// The number of pixels of (`miner`, `color`) in a glyph's colors.
pub open spec fn pixels_of(g: ColorsView, miner: Address, color: u32) -> nat {
    if map_of(g).contains_key(miner) {
        color_count(map_of(g)[miner], color)
    } else {
        0
    }
}

proof fn lemma_debit_colors_exact(
    m: Map<ColorKey, u32>,
    miner: Address,
    minter: Address,
    cs: Seq<(u32, Seq<u32>)>,
    k: ColorKey,
)
    requires
        keys_increase(cs),
        debit_colors(m, miner, minter, cs) is Some,
    ensures
        balance_of(debit_colors(m, miner, minter, cs)->0, k) == balance_of(m, k) - (if k.miner == miner
            && k.owner == minter {
            color_count(cs, k.color)
        } else {
            0
        }),
    decreases cs.len(),
{
    if cs.len() > 0 {
        let pre = cs.drop_last();
        assert(pre.push(cs.last()) == cs);
        lemma_map_of_push(pre, cs.last().0, cs.last().1);
        lemma_debit_colors_exact(m, miner, minter, pre, k);
        if k.miner == miner && k.owner == minter && k.color == cs.last().0 {
            lemma_debit_colors_exact(m, miner, minter, pre, k);
            if map_of(pre).contains_key(k.color) {
                lemma_entries(pre);
                let i = choose|i: int| 0 <= i < pre.len() && (#[trigger] pre[i]).0 == k.color;
                assert(pre[i] == cs[i]);
                u32::lemma_irreflexive(k.color);
            }
        }
    }
}


proof fn lemma_debit_miners_exact(m: Map<ColorKey, u32>, minter: Address, input: ColorsView, k: ColorKey)
    requires
        colors_wf(input),
        debit_miners(m, minter, input) is Some,
    ensures
        balance_of(debit_miners(m, minter, input)->0, k) == balance_of(m, k) - (if k.owner == minter {
            pixels_of(input, k.miner, k.color)
        } else {
            0
        }),
    decreases input.len(),
{
    if input.len() > 0 {
        let pre = input.drop_last();
        let (miner, cs) = input.last();
        assert(pre.push(input.last()) == input);
        lemma_map_of_push(pre, miner, cs);
        assert(colors_wf(pre)) by {
            assert forall|i: int| 0 <= i < pre.len() implies keys_increase(#[trigger] pre[i].1) by {
                assert(pre[i] == input[i]);
            }
        }
        assert(keys_increase(cs)) by {
            assert(input[input.len() - 1] == input.last());
        }
        lemma_debit_miners_exact(m, minter, pre, k);
        let m1 = debit_miners(m, minter, pre)->0;
        lemma_debit_colors_exact(m1, miner, minter, cs, k);
        if k.miner == miner && map_of(pre).contains_key(miner) {
            lemma_entries(pre);
            let i = choose|i: int| 0 <= i < pre.len() && (#[trigger] pre[i]).0 == miner;
            assert(pre[i] == input[i]);
            Address::lemma_irreflexive(miner);
        }
    }
}

/// The number of (miner, color) entries of a glyph's colors: the payments a
/// scrape makes to give them all back.
pub open spec fn payments(ms: ColorsView) -> nat
    decreases ms.len(),
{
    if ms.len() == 0 {
        0
    } else {
        ms[0].1.len() + payments(ms.drop_first())
    }
}

proof fn lemma_scrape_colors_exact(
    m: Map<ColorKey, u32>,
    miner: Address,
    to: Address,
    cs: Seq<(u32, Seq<u32>)>,
    count: int,
    max: int,
    k: ColorKey,
)
    requires
        keys_increase(cs),
        count + cs.len() <= max,
        scrape_colors(m, miner, to, cs, count, max) is Some,
    ensures
        ({
            let (m2, c2) = scrape_colors(m, miner, to, cs, count, max)->0;
            &&& c2 == count + cs.len()
            &&& balance_of(m2, k) == balance_of(m, k) + (if k.miner == miner && k.owner == to {
                color_count(cs, k.color)
            } else {
                0
            })
        }),
    decreases cs.len(),
{
    if cs.len() > 0 {
        let k0 = ColorKey { miner, owner: to, color: cs[0].0 };
        let b = balance_of(m, k0) + cs[0].1.len();
        lemma_map_of_drop_first(cs);
        lemma_scrape_colors_exact(m.insert(k0, b as u32), miner, to, cs.drop_first(), count + 1, max, k);
    } else {
        assert(map_of(cs) =~= Map::<u32, Seq<u32>>::empty()) by {
            lemma_entries(cs);
        }
    }
}

proof fn lemma_payments_zero(ms: ColorsView, miner: Address, color: u32)
    requires
        keys_increase(ms),
        payments(ms) == 0,
    ensures
        pixels_of(ms, miner, color) == 0,
    decreases ms.len(),
{
    if ms.len() > 0 {
        lemma_map_of_drop_first(ms);
        lemma_payments_zero(ms.drop_first(), miner, color);
        assert(map_of(ms[0].1) =~= Map::<u32, Seq<u32>>::empty()) by {
            lemma_entries(ms[0].1);
        }
    }
}

proof fn lemma_scrape_miners_exact(
    m: Map<ColorKey, u32>,
    rem: ColorsView,
    to: Address,
    ms: ColorsView,
    count: int,
    max: int,
    k: ColorKey,
)
    requires
        colors_wf(ms),
        0 <= count,
        count + payments(ms) <= max,
        scrape_miners(m, rem, to, ms, count, max) is Some,
    ensures
        ({
            let (m2, _, _) = scrape_miners(m, rem, to, ms, count, max)->0;
            balance_of(m2, k) == balance_of(m, k) + (if k.owner == to {
                pixels_of(ms, k.miner, k.color)
            } else {
                0
            })
        }),
    decreases ms.len(),
{
    if ms.len() > 0 {
        if count >= max {
            lemma_payments_zero(ms, k.miner, k.color);
        } else {
            let (miner, cs) = ms[0];
            let t = ms.drop_first();
            lemma_map_of_drop_first(ms);
            assert(keys_increase(cs));
            lemma_scrape_colors_exact(m, miner, to, cs, count, max, k);
            let (m1, c1) = scrape_colors(m, miner, to, cs, count, max)->0;
            let left = cs.skip(c1 - count);
            let rem1 = if left.len() == 0 {
                crate::sorted_map::entries_remove(rem, miner)
            } else {
                crate::sorted_map::entries_set(rem, miner, left)
            };
            assert(colors_wf(t)) by {
                assert forall|i: int| 0 <= i < t.len() implies keys_increase(#[trigger] t[i].1) by {
                    assert(t[i] == ms[i + 1]);
                }
            }
            lemma_scrape_miners_exact(m1, rem1, to, t, c1, max, k);
        }
    } else {
        assert(map_of(ms) =~= Map::<Address, Seq<(u32, Seq<u32>)>>::empty()) by {
            lemma_entries(ms);
        }
    }
}


proof fn lemma_payments_push(g: ColorsView, x: (Address, Seq<(u32, Seq<u32>)>))
    ensures
        payments(g.push(x)) == payments(g) + x.1.len(),
    decreases g.len(),
{
    if g.len() > 0 {
        assert(g.push(x).drop_first() =~= g.drop_first().push(x));
        assert(g.push(x)[0] == g[0]);
        lemma_payments_push(g.drop_first(), x);
    } else {
        assert(g.push(x).drop_first() =~= Seq::<(Address, Seq<(u32, Seq<u32>)>)>::empty());
        assert(g.push(x)[0] == x);
        assert(payments(Seq::<(Address, Seq<(u32, Seq<u32>)>)>::empty()) == 0);
    }
}

/// Merging colors into a glyph that has none gives a glyph with the same
/// pixels of each (miner, color), and as many payments to give them back.
proof fn lemma_merge_into_empty(input: ColorsView)
    requires
        colors_wf(input),
    ensures
        colors_wf(merge_colors(Seq::empty(), input)),
        forall|i: int|
            #![trigger merge_colors(Seq::empty(), input)[i]]
            0 <= i < merge_colors(Seq::empty(), input).len() ==> exists|j: int|
                0 <= j < input.len() && input[j] == merge_colors(Seq::empty(), input)[i],
        forall|mi: Address, c: u32|
            #[trigger] pixels_of(merge_colors(Seq::empty(), input), mi, c) == pixels_of(input, mi, c),
        payments(merge_colors(Seq::empty(), input)) == payments(input),
    decreases input.len(),
{
    let e = Seq::<(Address, Seq<(u32, Seq<u32>)>)>::empty();
    if input.len() == 0 {
        assert(input =~= e);
    } else {
        let pre = input.drop_last();
        let (miner, cs) = input.last();
        assert(pre.push(input.last()) == input);
        lemma_map_of_push(pre, miner, cs);
        assert(colors_wf(pre)) by {
            assert forall|i: int| 0 <= i < pre.len() implies keys_increase(#[trigger] pre[i].1) by {
                assert(pre[i] == input[i]);
            }
        }
        assert(input[input.len() - 1] == input.last());
        lemma_merge_into_empty(pre);
        lemma_payments_push(pre, input.last());
        let g0 = merge_colors(e, pre);
        let g = merge_colors(e, input);
        // Every key of the merged prefix comes before the last miner.
        assert forall|i: int| 0 <= i < g0.len() implies (#[trigger] g0[i]).0.precedes(miner) by {
            let j = choose|j: int| 0 <= j < pre.len() && pre[j] == g0[i];
            assert(pre[j] == input[j]);
        }
        assert(!has_key(g0, miner)) by {
            if has_key(g0, miner) {
                let i = choose|i: int| 0 <= i < g0.len() && (#[trigger] g0[i]).0 == miner;
                assert(g0[i].0.precedes(miner));
                Address::lemma_irreflexive(miner);
            }
        }
        assert(!map_of(g0).contains_key(miner)) by {
            lemma_entries(g0);
        }
        if cs.len() == 0 {
            assert(g == g0);
            assert(map_of(cs) =~= Map::<u32, Seq<u32>>::empty()) by {
                lemma_entries(cs);
            }
            assert forall|mi: Address, c: u32| #[trigger] pixels_of(g, mi, c) == pixels_of(input, mi, c) by {
                assert(pixels_of(g0, mi, c) == pixels_of(pre, mi, c));
            }
            assert forall|i: int| 0 <= i < g.len() implies exists|j: int|
                0 <= j < input.len() && input[j] == #[trigger] g[i] by {
                let j = choose|j: int| 0 <= j < pre.len() && pre[j] == g0[i];
                assert(input[j] == pre[j]);
            }
        } else {
            assert(is_place(g0, miner, g0.len() as int));
            let p = choose|p: int| is_place(g0, miner, p);
            lemma_place_unique(g0, miner, p, g0.len() as int);
            assert(entries_set(g0, miner, cs) == g0.insert(g0.len() as int, (miner, cs)));
            assert(g =~= g0.push((miner, cs)));
            assert(keys_increase(g)) by {
                assert forall|a: int, b: int| 0 <= a < b < g.len() implies (#[trigger] g[a]).0.precedes(
                    (#[trigger] g[b]).0,
                ) by {
                    if b < g0.len() {
                        assert(g[a] == g0[a] && g[b] == g0[b]);
                    } else {
                        assert(g[a] == g0[a]);
                    }
                }
            }
            lemma_map_of_push(g0, miner, cs);
            assert(colors_wf(g)) by {
                assert forall|i: int| 0 <= i < g.len() implies keys_increase(#[trigger] g[i].1) by {
                    if i < g0.len() {
                        assert(g[i] == g0[i]);
                    }
                }
            }
            lemma_payments_push(g0, (miner, cs));
            assert forall|mi: Address, c: u32| #[trigger] pixels_of(g, mi, c) == pixels_of(input, mi, c) by {
                assert(pixels_of(g0, mi, c) == pixels_of(pre, mi, c));
            }
            assert forall|i: int| 0 <= i < g.len() implies exists|j: int|
                0 <= j < input.len() && input[j] == #[trigger] g[i] by {
                if i < g0.len() {
                    assert(g[i] == g0[i]);
                    let j = choose|j: int| 0 <= j < pre.len() && pre[j] == g0[i];
                    assert(input[j] == pre[j]);
                } else {
                    assert(input[input.len() - 1] == g[i]);
                }
            }
        }
    }
}


/// Scraping gives back what minting spent: a glyph minted in one go from
/// colors its minter holds, then scraped back to its owner within the limit
/// of payments a scrape makes, leaves every balance as it was before the mint.
pub proof fn law_scrape_gives_back_minted_colors(
    s: StorageView,
    h: Hash32,
    minter: Address,
    input: ColorsView,
    width: u32,
    k: ColorKey,
)
    requires
        colors_wf(input),
        glyph_or_default(s, h).colors.len() == 0,
        mint_outcome(s, h, minter, None, input, Some(width)) is Ok,
        scrape_outcome(mint_outcome(s, h, minter, None, input, Some(width))->Ok_0.0, None, h) is Ok,
        payments(input) <= (s.config->0.max_payment_count as u8) as int,
    ensures
        balance_of(
            scrape_outcome(mint_outcome(s, h, minter, None, input, Some(width))->Ok_0.0, None, h)->Ok_0.0.colors,
            k,
        ) == balance_of(s.colors, k),
{
    let e = Seq::<(Address, Seq<(u32, Seq<u32>)>)>::empty();
    assert(glyph_or_default(s, h).colors =~= e);
    let debited = debit_miners(s.colors, minter, input)->0;
    let merged = merge_colors(e, input);
    let max = (s.config->0.max_payment_count as u8) as int;
    lemma_merge_into_empty(input);
    lemma_debit_miners_exact(s.colors, minter, input, k);
    lemma_scrape_miners_exact(debited, merged, minter, merged, 0, max, k);
}


/// Posting a sell offer that meets no counter-offer and then withdrawing it
/// gives back the glyph's offers as they were; both calls ask only the
/// owner's authorization and move no tokens.
pub proof fn law_post_then_withdraw_restores_offers(s: StorageView, this: Address, h: Hash32, b: Offer)
    requires
        exchange_wf(s),
        post_outcome(s, this, Offer::Glyph(h), b) is Ok,
        !meets_counter_offer(s, Offer::Glyph(h), b),
    ensures
        ({
            let (s2, a2) = post_outcome(s, this, Offer::Glyph(h), b)->Ok_0;
            &&& a2 == seq![Action::RequireAuth(s.owners[h])]
            &&& delete_outcome(s2, this, Offer::Glyph(h), Some(b)) is Ok
            &&& ({
                let (s3, a3) = delete_outcome(s2, this, Offer::Glyph(h), Some(b))->Ok_0;
                &&& a3 == seq![Action::RequireAuth(s.owners[h])]
                &&& offers_of(s3, h) == offers_of(s, h)
                &&& s3 == StorageView { glyph_offers: s.glyph_offers.insert(h, offers_of(s, h)), ..s }
            })
        }),
{
    if let Offer::Glyph(bh) = b {
        lemma_not_found(offers_of(s, bh), Offer::Glyph(h));
    }
    let offers = offers_of(s, h);
    lemma_offers_of_sorted(s, h);
    lemma_search_sorted(offers, b);
    let i = search(offers, b)->Err_0;
    let t = offers.insert(i, b);
    lemma_insert_sorted(offers, b, i);
    assert(t[i] == b);
    lemma_search_sorted(t, b);
    let j = search(t, b)->Ok_0;
    if j != i {
        if j < i {
            Offer::lemma_irreflexive(b);
        } else {
            Offer::lemma_irreflexive(b);
        }
    }
    assert(t.remove(i) =~= offers);
    assert(s.glyph_offers.insert(h, t).insert(h, offers) =~= s.glyph_offers.insert(h, offers));
}

proof fn lemma_color_count_split(cs: Seq<(u32, Seq<u32>)>, n: int, c: u32)
    requires
        keys_increase(cs),
        0 <= n <= cs.len(),
    ensures
        color_count(cs, c) == color_count(cs.take(n), c) + color_count(cs.skip(n), c),
    decreases n,
{
    if n == 0 {
        assert(cs.skip(0) =~= cs);
        assert(map_of(cs.take(0)) =~= Map::<u32, Seq<u32>>::empty()) by {
            lemma_entries(cs.take(0));
        }
    } else {
        lemma_color_count_split(cs, n - 1, c);
        let pre = cs.take(n - 1);
        assert(cs.take(n) =~= pre.push(cs[n - 1]));
        assert(keys_increase(cs.take(n))) by {
            assert forall|a: int, b: int| 0 <= a < b < cs.take(n).len() implies (#[trigger] cs.take(n)[a]).0.precedes(
                (#[trigger] cs.take(n)[b]).0,
            ) by {
                assert(cs.take(n)[a] == cs[a] && cs.take(n)[b] == cs[b]);
            }
        }
        lemma_map_of_push(pre, cs[n - 1].0, cs[n - 1].1);
        let rest = cs.skip(n - 1);
        assert(keys_increase(rest)) by {
            assert forall|a: int, b: int| 0 <= a < b < rest.len() implies (#[trigger] rest[a]).0.precedes(
                (#[trigger] rest[b]).0,
            ) by {
                assert(rest[a] == cs[a + n - 1] && rest[b] == cs[b + n - 1]);
            }
        }
        lemma_map_of_drop_first(rest);
        assert(rest.drop_first() =~= cs.skip(n));
        assert(rest[0] == cs[n - 1]);
        if c == cs[n - 1].0 && map_of(pre).contains_key(c) {
            lemma_entries(pre);
            let a = choose|a: int| 0 <= a < pre.len() && (#[trigger] pre[a]).0 == c;
            assert(pre[a] == cs[a]);
            u32::lemma_irreflexive(c);
        }
    }
}

proof fn lemma_scrape_colors_general(
    m: Map<ColorKey, u32>,
    miner: Address,
    to: Address,
    cs: Seq<(u32, Seq<u32>)>,
    count: int,
    max: int,
    k: ColorKey,
)
    requires
        keys_increase(cs),
        scrape_colors(m, miner, to, cs, count, max) is Some,
    ensures
        ({
            let (m2, c2) = scrape_colors(m, miner, to, cs, count, max)->0;
            &&& count <= c2 <= count + cs.len()
            &&& c2 < count + cs.len() ==> c2 >= max
            &&& balance_of(m2, k) == balance_of(m, k) + (if k.miner == miner && k.owner == to {
                color_count(cs.take(c2 - count), k.color)
            } else {
                0
            })
        }),
    decreases cs.len(),
{
    if cs.len() == 0 || count >= max {
        assert(map_of(cs.take(0)) =~= Map::<u32, Seq<u32>>::empty()) by {
            lemma_entries(cs.take(0));
        }
    } else {
        let k0 = ColorKey { miner, owner: to, color: cs[0].0 };
        let b = balance_of(m, k0) + cs[0].1.len();
        let t = cs.drop_first();
        lemma_map_of_drop_first(cs);
        lemma_scrape_colors_general(m.insert(k0, b as u32), miner, to, t, count + 1, max, k);
        let (m2, c2) = scrape_colors(m, miner, to, cs, count, max)->0;
        let n = c2 - count;
        let tk = cs.take(n);
        assert(keys_increase(tk)) by {
            assert forall|a: int, b2: int| 0 <= a < b2 < tk.len() implies (#[trigger] tk[a]).0.precedes(
                (#[trigger] tk[b2]).0,
            ) by {
                assert(tk[a] == cs[a] && tk[b2] == cs[b2]);
            }
        }
        lemma_map_of_drop_first(tk);
        assert(tk.drop_first() =~= t.take(n - 1));
        assert(tk[0] == cs[0]);
    }
}

proof fn lemma_scrape_miners_conserves(
    m: Map<ColorKey, u32>,
    rem: ColorsView,
    to: Address,
    ms: ColorsView,
    count: int,
    max: int,
    k: ColorKey,
)
    requires
        colors_wf(ms),
        keys_increase(rem),
        forall|i: int|
            0 <= i < ms.len() ==> map_of(rem).contains_key(#[trigger] ms[i].0) && map_of(rem)[ms[i].0]
                == ms[i].1,
        scrape_miners(m, rem, to, ms, count, max) is Some,
    ensures
        ({
            let (m2, rem2, _) = scrape_miners(m, rem, to, ms, count, max)->0;
            &&& k.owner == to ==> balance_of(m2, k) + pixels_of(rem2, k.miner, k.color) == balance_of(m, k)
                + pixels_of(rem, k.miner, k.color)
            &&& k.owner != to ==> balance_of(m2, k) == balance_of(m, k)
        }),
    decreases ms.len(),
{
    if ms.len() > 0 && count < max {
        let (miner, cs) = ms[0];
        assert(keys_increase(cs));
        lemma_scrape_colors_general(m, miner, to, cs, count, max, k);
        let (m1, c1) = scrape_colors(m, miner, to, cs, count, max)->0;
        let n = c1 - count;
        let left = cs.skip(n);
        let rem1 = if left.len() == 0 {
            entries_remove(rem, miner)
        } else {
            entries_set(rem, miner, left)
        };
        lemma_entries_remove(rem, miner);
        lemma_entries_set(rem, miner, left);
        assert(map_of(rem)[miner] == cs);
        lemma_color_count_split(cs, n, k.color);
        if left.len() == 0 {
            assert(map_of(left) =~= Map::<u32, Seq<u32>>::empty()) by {
                lemma_entries(left);
            }
        }
        let t = ms.drop_first();
        assert(colors_wf(t)) by {
            assert forall|i: int| 0 <= i < t.len() implies keys_increase(#[trigger] t[i].1) by {
                assert(t[i] == ms[i + 1]);
            }
        }
        assert forall|i: int| 0 <= i < t.len() implies map_of(rem1).contains_key(#[trigger] t[i].0)
            && map_of(rem1)[t[i].0] == t[i].1 by {
            assert(t[i] == ms[i + 1]);
            assert(ms[0].0.precedes(ms[i + 1].0));
            Address::lemma_irreflexive(miner);
        }
        lemma_scrape_miners_conserves(m1, rem1, to, t, c1, max, k);
    }
}

/// A scrape moves colors from the glyph to their receiver and makes or loses
/// none: for every miner and color, what the receiver (`to`, or the owner)
/// holds plus what the glyph still holds is unchanged, and every other
/// holder's balances are untouched.
pub proof fn law_scrape_conserves_colors(s: StorageView, to: Option<Address>, h: Hash32, k: ColorKey)
    requires
        scrape_outcome(s, to, h) is Ok,
        colors_wf(s.glyphs[h].colors),
    ensures
        ({
            let s2 = scrape_outcome(s, to, h)->Ok_0.0;
            let receiver = match to {
                Some(a) => a,
                None => s.owners[h],
            };
            &&& k.owner == receiver ==> balance_of(s2.colors, k) + pixels_of(s2.glyphs[h].colors, k.miner, k.color)
                == balance_of(s.colors, k) + pixels_of(s.glyphs[h].colors, k.miner, k.color)
            &&& k.owner != receiver ==> balance_of(s2.colors, k) == balance_of(s.colors, k)
        }),
{
    let g = s.glyphs[h].colors;
    lemma_entries(g);
    let receiver = match to {
        Some(a) => a,
        None => s.owners[h],
    };
    let max = (s.config->0.max_payment_count as u8) as int;
    assert forall|i: int| 0 <= i < g.len() implies map_of(g).contains_key(#[trigger] g[i].0) && map_of(g)[g[i].0]
        == g[i].1 by {
        crate::sorted_map::lemma_entry(g, i);
    }
    lemma_scrape_miners_conserves(s.colors, g, receiver, g, 0, max, k);
}


/// The number of pixels a miner's colors paint: the lengths of the index
/// lists of all its colors, added up.
pub open spec fn pixels_painted(cs: Seq<(u32, Seq<u32>)>) -> nat
    decreases cs.len(),
{
    if cs.len() == 0 {
        0
    } else {
        cs[0].1.len() + pixels_painted(cs.drop_first())
    }
}

proof fn lemma_pixels_painted_push(cs: Seq<(u32, Seq<u32>)>, x: (u32, Seq<u32>))
    ensures
        pixels_painted(cs.push(x)) == pixels_painted(cs) + x.1.len(),
    decreases cs.len(),
{
    if cs.len() > 0 {
        assert(cs.push(x).drop_first() =~= cs.drop_first().push(x));
        assert(cs.push(x)[0] == cs[0]);
        lemma_pixels_painted_push(cs.drop_first(), x);
    } else {
        assert(cs.push(x).drop_first() =~= Seq::<(u32, Seq<u32>)>::empty());
        assert(cs.push(x)[0] == x);
        assert(pixels_painted(Seq::<(u32, Seq<u32>)>::empty()) == 0);
    }
}

proof fn lemma_count_is_pixels(cs: Seq<(u32, Seq<u32>)>)
    ensures
        count_indexes(cs) == pixels_painted(cs),
    decreases cs.len(),
{
    if cs.len() > 0 {
        lemma_count_is_pixels(cs.drop_last());
        assert(cs.drop_last().push(cs.last()) == cs);
        lemma_pixels_painted_push(cs.drop_last(), cs.last());
    }
}

proof fn lemma_pay_miners_shape(
    st: (int, Seq<Action>),
    ms: ColorsView,
    token: Address,
    this: Address,
    rate: i128,
    amount: i128,
    length: u32,
)
    requires
        pay_miners(st, ms, token, None, this, rate, amount, length) is Some,
    ensures
        ({
            let (_, acts) = pay_miners(st, ms, token, None, this, rate, amount, length)->0;
            &&& acts.len() == st.1.len() + ms.len()
            &&& forall|j: int| 0 <= j < st.1.len() ==> acts[j] == st.1[j]
            &&& forall|i: int|
                0 <= i < ms.len() ==> count_indexes(#[trigger] ms[i].1) <= u32::MAX && miner_royalty(
                    rate,
                    amount,
                    count_indexes(ms[i].1),
                    length,
                ) is Some && acts[st.1.len() + i] == Action::Transfer {
                    token,
                    from: this,
                    to: ms[i].0,
                    amount: miner_royalty(rate, amount, count_indexes(ms[i].1), length)->0,
                }
        }),
    decreases ms.len(),
{
    if ms.len() > 0 {
        let pre = ms.drop_last();
        lemma_pay_miners_shape(st, pre, token, this, rate, amount, length);
        let (_, acts1) = pay_miners(st, pre, token, None, this, rate, amount, length)->0;
        let (_, acts) = pay_miners(st, ms, token, None, this, rate, amount, length)->0;
        assert(acts.drop_last() == acts1);
        assert forall|i: int| 0 <= i < ms.len() implies count_indexes(#[trigger] ms[i].1) <= u32::MAX
            && miner_royalty(rate, amount, count_indexes(ms[i].1), length) is Some && acts[st.1.len() + i]
            == Action::Transfer {
            token,
            from: this,
            to: ms[i].0,
            amount: miner_royalty(rate, amount, count_indexes(ms[i].1), length)->0,
        } by {
            if i < pre.len() {
                assert(pre[i] == ms[i]);
                assert(acts[st.1.len() + i] == acts1[st.1.len() + i]);
            } else {
                assert(ms[i] == ms.last());
            }
        }
        assert forall|j: int| 0 <= j < st.1.len() implies acts[j] == st.1[j] by {
            assert(acts[j] == acts1[j]);
        }
    }
}

/// A sale paid out of escrow pays, in this order: the minter `minter_rate`
/// percent of the price, rounded up; then each miner of the glyph, in the
/// glyph's order, the miner rate's share of the price (rounded up) times the
/// number of pixels its colors paint over the glyph's pixel count, rounded
/// up; then the seller.
pub proof fn law_escrow_sale_pays_miners_by_pixels(
    s: StorageView,
    this: Address,
    seller: Address,
    h: Hash32,
    amount: i128,
    asset: Address,
)
    requires
        royalties(s, this, seller, h, amount, asset, None) is Ok,
    ensures
        ({
            let acts = royalties(s, this, seller, h, amount, asset, None)->Ok_0;
            let g = s.glyphs[h];
            let cfg = s.config->0;
            let share = mul_ceil(cfg.miner_royalty_rate, amount, 100)->0;
            &&& acts.len() == g.colors.len() + 2
            &&& acts[0] == Action::Transfer {
                token: asset,
                from: this,
                to: s.minters[h],
                amount: mul_ceil(cfg.minter_royalty_rate, amount, 100)->0,
            }
            &&& forall|i: int|
                0 <= i < g.colors.len() ==> mul_ceil(
                    share,
                    pixels_painted(#[trigger] g.colors[i].1) as i128,
                    g.length as i128,
                ) is Some && acts[i + 1] == Action::Transfer {
                    token: asset,
                    from: this,
                    to: g.colors[i].0,
                    amount: mul_ceil(share, pixels_painted(g.colors[i].1) as i128, g.length as i128)->0,
                }
            &&& acts.last() matches Action::Transfer { token: t, from: f, to: r, .. } && t == asset && f == this
                && r == seller
        }),
{
    let cfg = s.config->0;
    let g = s.glyphs[h];
    let minter_amount = mul_ceil(cfg.minter_royalty_rate, amount, 100)->0;
    let st0: (int, Seq<Action>) = (amount as int, Seq::empty());
    let st1 = pay_step(st0, asset, None, this, s.minters[h], minter_amount)->0;
    assert(st1.1.len() == 1);
    lemma_pay_miners_shape(st1, g.colors, asset, this, cfg.miner_royalty_rate, amount, g.length);
    let acts = royalties(s, this, seller, h, amount, asset, None)->Ok_0;
    let st2 = pay_miners(st1, g.colors, asset, None, this, cfg.miner_royalty_rate, amount, g.length)->0;
    assert(acts.drop_last() == st2.1);
    assert(acts[0] == st2.1[0]);
    assert forall|i: int| 0 <= i < g.colors.len() implies mul_ceil(
        mul_ceil(cfg.miner_royalty_rate, amount, 100)->0,
        pixels_painted(#[trigger] g.colors[i].1) as i128,
        g.length as i128,
    ) is Some && acts[i + 1] == Action::Transfer {
        token: asset,
        from: this,
        to: g.colors[i].0,
        amount: mul_ceil(
            mul_ceil(cfg.miner_royalty_rate, amount, 100)->0,
            pixels_painted(g.colors[i].1) as i128,
            g.length as i128,
        )->0,
    } by {
        lemma_count_is_pixels(g.colors[i].1);
        assert(acts[i + 1] == st2.1[1 + i]);
    }
}


/// Withdrawing a bid takes out that bidder's bid and only it: the bids for
/// the glyph at that price afterwards are the bids before with the
/// bidder's entry removed, in the same order, and the escrowed amount goes
/// back to the bidder. Bids at other prices or for other glyphs are untouched.
pub proof fn law_withdrawing_a_bid_keeps_the_others(
    s: StorageView,
    this: Address,
    bidder: Address,
    asset: Address,
    amount: i128,
    h: Hash32,
    other: AssetKey,
)
    requires
        delete_outcome(s, this, Offer::AssetSell(bidder, asset, amount), Some(Offer::Glyph(h))) is Ok,
        other != (AssetKey { hash: h, asset, amount }),
    ensures
        ({
            let k = AssetKey { hash: h, asset, amount };
            let (s2, acts) = delete_outcome(s, this, Offer::AssetSell(bidder, asset, amount), Some(Offer::Glyph(h)))->Ok_0;
            let before = s.asset_offers[k];
            let after = if s2.asset_offers.contains_key(k) {
                s2.asset_offers[k]
            } else {
                Seq::<Address>::empty()
            };
            &&& s.asset_offers.contains_key(k)
            &&& exists|i: int| 0 <= i < before.len() && before[i] == bidder && after == before.remove(i)
            &&& s2.asset_offers.contains_key(other) == s.asset_offers.contains_key(other)
            &&& s2.asset_offers[other] == s.asset_offers[other]
            &&& acts == seq![
                Action::RequireAuth(bidder),
                Action::Transfer { token: asset, from: this, to: bidder, amount },
            ]
        }),
{
    let k = AssetKey { hash: h, asset, amount };
    let before = s.asset_offers[k];
    let i = search(before, bidder)->Ok_0;
    lemma_search_found(before, bidder, 0, before.len() as int);
    if before.remove(i).len() == 0 {
        assert(before.remove(i) =~= Seq::<Address>::empty());
    }
}

/// Looking up a named bidder finds its bid exactly when the bidder is
/// anywhere among the recorded bids for the glyph at that price.
pub proof fn law_bidder_lookup_finds_any_bid(
    s: StorageView,
    bidder: Address,
    asset: Address,
    amount: i128,
    h: Hash32,
)
    ensures
        ({
            let k = AssetKey { hash: h, asset, amount };
            (get_result(s, Offer::AssetSell(bidder, asset, amount), Some(Offer::Glyph(h))) == Ok::<(), Error>(
                (),
            )) <==> (s.asset_offers.contains_key(k) && exists|i: int|
                0 <= i < s.asset_offers[k].len() && s.asset_offers[k][i] == bidder)
        }),
{
}

/// Mining credits the receiver (`to`, or else the source who pays): for each
/// mined color, the balance held by the receiver as mined by the miner
/// (`miner`, or else the source) grows by the amount mined, and every other
/// balance stays as it was.
pub proof fn law_mining_credits_the_receiver(
    s: StorageView,
    source: Address,
    c: Seq<(u32, u32)>,
    miner: Option<Address>,
    to: Option<Address>,
    k: ColorKey,
)
    requires
        keys_increase(c),
        mine_outcome(s, source, c, miner, to) is Ok,
    ensures
        ({
            let s2 = mine_outcome(s, source, c, miner, to)->Ok_0.0;
            let mi = match miner {
                Some(a) => a,
                None => source,
            };
            let receiver = match to {
                Some(a) => a,
                None => source,
            };
            &&& forall|i: int|
                0 <= i < c.len() ==> balance_in(s2.colors, #[trigger] key(mi, receiver, c[i].0))
                    == balance_in(s.colors, key(mi, receiver, c[i].0)) + c[i].1
            &&& (forall|i: int| 0 <= i < c.len() ==> key(mi, receiver, (#[trigger] c[i]).0) != k)
                ==> balance_in(s2.colors, k) == balance_in(s.colors, k)
        }),
{
    let mi = match miner {
        Some(a) => a,
        None => source,
    };
    let receiver = match to {
        Some(a) => a,
        None => source,
    };
    assert forall|i: int| 0 <= i < c.len() implies balance_in(
        mine_outcome(s, source, c, miner, to)->Ok_0.0.colors,
        #[trigger] key(mi, receiver, c[i].0),
    ) == balance_in(s.colors, key(mi, receiver, c[i].0)) + c[i].1 by {
        law_mining_credits_each_color(s.colors, mi, receiver, c, i);
    }
    if forall|i: int| 0 <= i < c.len() ==> key(mi, receiver, (#[trigger] c[i]).0) != k {
        lemma_credited_other(s.colors, mi, receiver, c, k);
    }
}


/// A key last in a list with increasing keys is not among the others.
proof fn lemma_last_key_fresh<K: Ordered, W>(s: Seq<(K, W)>)
    requires
        keys_increase(s),
        s.len() > 0,
    ensures
        !map_of(s.drop_last()).contains_key(s.last().0),
{
    let pre = s.drop_last();
    if map_of(pre).contains_key(s.last().0) {
        lemma_entries(pre);
        let j = choose|j: int| 0 <= j < pre.len() && (#[trigger] pre[j]).0 == s.last().0;
        assert(pre[j] == s[j]);
        assert(s[j].0.precedes(s[s.len() - 1].0));
        K::lemma_irreflexive(s.last().0);
    }
}

proof fn lemma_add_indexes_pixels(g: ColorsView, miner: Address, color: u32, indexes: Seq<u32>)
    requires
        colors_wf(g),
        has_key(g, miner),
    ensures
        colors_wf(add_indexes(g, miner, color, indexes)),
        has_key(add_indexes(g, miner, color, indexes), miner),
        forall|mi: Address, c: u32|
            #[trigger] pixels_of(add_indexes(g, miner, color, indexes), mi, c) == pixels_of(g, mi, c) + (
            if mi == miner && c == color {
                indexes.len()
            } else {
                0
            }),
{
    let inner = g[key_index(g, miner)].1;
    let prev = if has_key(inner, color) {
        inner[key_index(inner, color)].1
    } else {
        Seq::empty()
    };
    let new_inner = entries_set(inner, color, prev + indexes);
    assert(keys_increase(inner));
    lemma_entries_set(inner, color, prev + indexes);
    lemma_entries_set(g, miner, new_inner);
    lemma_colors_wf_set(g, miner, new_inner);
    let t = add_indexes(g, miner, color, indexes);
    assert(t == entries_set(g, miner, new_inner));
    assert(map_of(t).contains_key(miner));
    assert(map_of(g)[miner] == inner);
}

proof fn lemma_add_colors_pixels(g: ColorsView, miner: Address, cs: Seq<(u32, Seq<u32>)>)
    requires
        colors_wf(g),
        has_key(g, miner),
        keys_increase(cs),
    ensures
        colors_wf(add_colors(g, miner, cs)),
        has_key(add_colors(g, miner, cs), miner),
        forall|mi: Address, c: u32|
            #[trigger] pixels_of(add_colors(g, miner, cs), mi, c) == pixels_of(g, mi, c) + (if mi == miner {
                color_count(cs, c)
            } else {
                0
            }),
    decreases cs.len(),
{
    if cs.len() == 0 {
        assert(map_of(cs) =~= Map::<u32, Seq<u32>>::empty()) by {
            lemma_entries(cs);
        }
    } else {
        let pre = cs.drop_last();
        assert(pre.push(cs.last()) == cs);
        lemma_map_of_push(pre, cs.last().0, cs.last().1);
        lemma_last_key_fresh(cs);
        lemma_add_colors_pixels(g, miner, pre);
        let g1 = add_colors(g, miner, pre);
        lemma_add_indexes_pixels(g1, miner, cs.last().0, cs.last().1);
    }
}

/// Merging colors into a glyph adds, for every miner and color, the pixels
/// of the input to those the glyph had.
proof fn lemma_merge_adds_pixels(g: ColorsView, input: ColorsView)
    requires
        colors_wf(g),
        colors_wf(input),
    ensures
        colors_wf(merge_colors(g, input)),
        forall|mi: Address, c: u32|
            #[trigger] pixels_of(merge_colors(g, input), mi, c) == pixels_of(g, mi, c) + pixels_of(input, mi, c),
    decreases input.len(),
{
    if input.len() == 0 {
        assert(map_of(input) =~= Map::<Address, Seq<(u32, Seq<u32>)>>::empty()) by {
            lemma_entries(input);
        }
    } else {
        let pre = input.drop_last();
        let (miner, cs) = input.last();
        assert(pre.push(input.last()) == input);
        lemma_map_of_push(pre, miner, cs);
        lemma_last_key_fresh(input);
        assert(colors_wf(pre)) by {
            assert forall|i: int| 0 <= i < pre.len() implies keys_increase(#[trigger] pre[i].1) by {
                assert(pre[i] == input[i]);
            }
        }
        assert(keys_increase(cs)) by {
            assert(input[input.len() - 1] == input.last());
        }
        lemma_merge_adds_pixels(g, pre);
        let g1 = merge_colors(g, pre);
        let r = merge_colors(g, input);
        if cs.len() == 0 {
            assert(map_of(cs) =~= Map::<u32, Seq<u32>>::empty()) by {
                lemma_entries(cs);
            }
            assert(r == g1);
            assert forall|mi: Address, c: u32| #[trigger] pixels_of(r, mi, c) == pixels_of(g, mi, c)
                + pixels_of(input, mi, c) by {
                assert(pixels_of(g1, mi, c) == pixels_of(g, mi, c) + pixels_of(pre, mi, c));
            }
        } else if !has_key(g1, miner) {
            lemma_entries_set(g1, miner, cs);
            lemma_colors_wf_set(g1, miner, cs);
            assert(r == entries_set(g1, miner, cs));
            assert(!map_of(g1).contains_key(miner));
            assert forall|mi: Address, c: u32| #[trigger] pixels_of(r, mi, c) == pixels_of(g, mi, c)
                + pixels_of(input, mi, c) by {
                assert(pixels_of(g1, mi, c) == pixels_of(g, mi, c) + pixels_of(pre, mi, c));
            }
        } else {
            lemma_add_colors_pixels(g1, miner, cs);
            assert(r == add_colors(g1, miner, cs));
            assert forall|mi: Address, c: u32| #[trigger] pixels_of(r, mi, c) == pixels_of(g, mi, c)
                + pixels_of(input, mi, c) by {
                assert(pixels_of(g1, mi, c) == pixels_of(g, mi, c) + pixels_of(pre, mi, c));
                assert(pixels_of(r, mi, c) == pixels_of(g1, mi, c) + (if mi == miner {
                    color_count(cs, c)
                } else {
                    0
                }));
            }
        }
    }
}

/// A mint step never drops a pixel: afterwards, for every miner and color,
/// the glyph holds the pixels it held before plus those of the input.
pub proof fn law_mint_step_adds_pixels(
    s: StorageView,
    h: Hash32,
    minter: Address,
    to: Option<Address>,
    input: ColorsView,
    width: Option<u32>,
    mi: Address,
    c: u32,
)
    requires
        colors_wf(input),
        colors_wf(glyph_or_default(s, h).colors),
        mint_outcome(s, h, minter, to, input, width) is Ok,
    ensures
        pixels_of(mint_outcome(s, h, minter, to, input, width)->Ok_0.0.glyphs[h].colors, mi, c) == pixels_of(
            glyph_or_default(s, h).colors,
            mi,
            c,
        ) + pixels_of(input, mi, c),
{
    lemma_merge_adds_pixels(glyph_or_default(s, h).colors, input);
}

} // verus!

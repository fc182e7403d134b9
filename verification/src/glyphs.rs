//! Glyphs: the 24-bit image that colors paint, its hash, and the records
//! kept for a minted glyph.

use vstd::prelude::*;
use crate::order::{Cmp, Ordered};
use crate::sorted_map::{
    Duplicate, SortedMap, entries_remove, entries_set, has_key, is_place, key_index, keys_increase,
    lemma_place_exists,
};
use crate::storage::{
    Storage, StorageView, read_color, read_glyph_or_default, read_glyph_or_error, read_glyph_owner,
    read_max_payment_count, remove_glyph_offer, write_color, write_glyph_owner,
};
use crate::types::{
    Action, Address, ColorKey, ColorsView, Error, Event, Failure, Glyph, GlyphColors, GlyphView, Hash32, colors_wf,
};

verus! {

/// The size of the largest image: 40 x 40 pixels of 3 bytes, and a width byte.
pub const MAX_BIT24_SIZE: usize = 40 * 40 * 3 + 1;

/// An image being painted: its bytes and the last byte painted so far.
pub type Canvas = (Seq<u8>, int);

/// All bytes white.
pub open spec fn blank() -> Canvas {
    (Seq::new(MAX_BIT24_SIZE as nat, |i: int| 255u8), 0)
}

pub open spec fn red(color: u32) -> u8 {
    (color / 65536 % 256) as u8
}

pub open spec fn green(color: u32) -> u8 {
    (color / 256 % 256) as u8
}

pub open spec fn blue(color: u32) -> u8 {
    (color % 256) as u8
}

/// Paints pixel `index` with `color` (0x00RRGGBB); a pixel outside the image traps.
pub open spec fn paint_pixel(st: Canvas, color: u32, index: u32) -> Option<Canvas> {
    let i = index * 3;
    if i >= MAX_BIT24_SIZE - 2 {
        None
    } else {
        Some(
            (
                st.0.update(i, red(color)).update(i + 1, green(color)).update(i + 2, blue(color)),
                if i + 2 > st.1 {
                    i + 2
                } else {
                    st.1
                },
            ),
        )
    }
}

pub open spec fn paint_indexes(st: Canvas, color: u32, indexes: Seq<u32>) -> Option<Canvas>
    decreases indexes.len(),
{
    if indexes.len() == 0 {
        Some(st)
    } else {
        match paint_indexes(st, color, indexes.drop_last()) {
            None => None,
            Some(s1) => paint_pixel(s1, color, indexes.last()),
        }
    }
}

pub open spec fn paint_colors(st: Canvas, colors: Seq<(u32, Seq<u32>)>) -> Option<Canvas>
    decreases colors.len(),
{
    if colors.len() == 0 {
        Some(st)
    } else {
        match paint_colors(st, colors.drop_last()) {
            None => None,
            Some(s1) => paint_indexes(s1, colors.last().0, colors.last().1),
        }
    }
}

pub open spec fn paint_miners(st: Canvas, miners: ColorsView) -> Option<Canvas>
    decreases miners.len(),
{
    if miners.len() == 0 {
        Some(st)
    } else {
        match paint_miners(st, miners.drop_last()) {
            None => None,
            Some(s1) => paint_colors(s1, miners.last().1),
        }
    }
}

/// The bytes that identify a glyph: its pixels, in the order of the colors
/// map, up to the last one painted, then the width.
pub open spec fn glyph_bytes(colors: ColorsView, width: u8) -> Option<Seq<u8>> {
    match paint_miners(blank(), colors) {
        None => None,
        Some((data, last)) => if last + 1 >= MAX_BIT24_SIZE {
            None
        } else {
            Some(data.update(last + 1, width).take(last + 2))
        },
    }
}

pub proof fn lemma_paint_indexes_stuck(st: Canvas, color: u32, s: Seq<u32>, i: int)
    requires
        0 <= i <= s.len(),
        paint_indexes(st, color, s.take(i)) is None,
    ensures
        paint_indexes(st, color, s) is None,
    decreases s.len() - i,
{
    if i < s.len() {
        assert(s.take(i + 1).drop_last() =~= s.take(i));
        lemma_paint_indexes_stuck(st, color, s, i + 1);
    } else {
        assert(s.take(i) =~= s);
    }
}

pub proof fn lemma_paint_colors_stuck(st: Canvas, s: Seq<(u32, Seq<u32>)>, i: int)
    requires
        0 <= i <= s.len(),
        paint_colors(st, s.take(i)) is None,
    ensures
        paint_colors(st, s) is None,
    decreases s.len() - i,
{
    if i < s.len() {
        assert(s.take(i + 1).drop_last() =~= s.take(i));
        lemma_paint_colors_stuck(st, s, i + 1);
    } else {
        assert(s.take(i) =~= s);
    }
}

pub proof fn lemma_paint_miners_stuck(st: Canvas, s: ColorsView, i: int)
    requires
        0 <= i <= s.len(),
        paint_miners(st, s.take(i)) is None,
    ensures
        paint_miners(st, s) is None,
    decreases s.len() - i,
{
    if i < s.len() {
        assert(s.take(i + 1).drop_last() =~= s.take(i));
        lemma_paint_miners_stuck(st, s, i + 1);
    } else {
        assert(s.take(i) =~= s);
    }
}

/// Paints every pixel of `colors` on a white image: the bytes, and the last byte painted.
pub fn paint(colors: &GlyphColors) -> (r: Option<(Vec<u8>, usize)>)
    ensures
        match paint_miners(blank(), colors@) {
            None => r is None,
            Some((data, last)) => r matches Some((d, l)) && d@ == data && l == last,
        },
        r matches Some((d, l)) ==> d@.len() == MAX_BIT24_SIZE,
{
    let mut data: Vec<u8> = Vec::new();
    while data.len() < MAX_BIT24_SIZE
        invariant
            data@.len() <= MAX_BIT24_SIZE,
            forall|j: int| 0 <= j < data@.len() ==> data@[j] == 255u8,
        decreases MAX_BIT24_SIZE - data@.len(),
    {
        data.push(255u8);
    }
    let mut max_i: usize = 0;
    proof {
        assert(data@ =~= blank().0);
    }
    let ghost ms = colors@;
    let mut mi: usize = 0;
    while mi < colors.len()
        invariant
            ms == colors@,
            0 <= mi <= ms.len(),
            paint_miners(blank(), ms.take(mi as int)) == Some::<Canvas>((data@, max_i as int)),
            data@.len() == MAX_BIT24_SIZE,
        decreases ms.len() - mi,
    {
        let inner = colors.value_at(mi);
        let ghost cs = inner@;
        let ghost st_m: Canvas = (data@, max_i as int);
        proof {
            assert(ms.take(mi as int + 1).drop_last() =~= ms.take(mi as int));
        }
        let mut ci: usize = 0;
        while ci < inner.len()
            invariant
                ms == colors@,
                0 <= mi < ms.len(),
                cs == inner@,
                cs == ms[mi as int].1,
                paint_miners(blank(), ms.take(mi as int)) == Some::<Canvas>(st_m),
                ms.take(mi as int + 1).drop_last() == ms.take(mi as int),
                0 <= ci <= cs.len(),
                paint_colors(st_m, cs.take(ci as int)) == Some::<Canvas>((data@, max_i as int)),
                data@.len() == MAX_BIT24_SIZE,
            decreases cs.len() - ci,
        {
            let color = inner.key_at(ci);
            let indexes = inner.value_at(ci);
            let ghost xs = indexes@;
            let ghost st_c: Canvas = (data@, max_i as int);
            proof {
                assert(cs.take(ci as int + 1).drop_last() =~= cs.take(ci as int));
            }
            let mut k: usize = 0;
            while k < indexes.len()
                invariant
                    ms == colors@,
                    0 <= mi < ms.len(),
                    cs == ms[mi as int].1,
                    paint_miners(blank(), ms.take(mi as int)) == Some::<Canvas>(st_m),
                    ms.take(mi as int + 1).drop_last() == ms.take(mi as int),
                    0 <= ci < cs.len(),
                    paint_colors(st_m, cs.take(ci as int)) == Some::<Canvas>(st_c),
                    cs.take(ci as int + 1).drop_last() == cs.take(ci as int),
                    color == cs[ci as int].0,
                    xs == indexes@,
                    xs == cs[ci as int].1,
                    0 <= k <= xs.len(),
                    data@.len() == MAX_BIT24_SIZE,
                    paint_indexes(st_c, color, xs.take(k as int)) == Some::<Canvas>(
                        (data@, max_i as int),
                    ),
                decreases xs.len() - k,
            {
                let index = indexes[k];
                proof {
                    assert(xs.take(k as int + 1).drop_last() =~= xs.take(k as int));
                }
                let i = match index.checked_mul(3) {
                    Some(v) => v as usize,
                    None => {
                        proof {
                            lemma_paint_indexes_stuck(st_c, color, xs, k as int + 1);
                            lemma_paint_colors_stuck(st_m, cs, ci as int + 1);
                            lemma_paint_miners_stuck(blank(), ms, mi as int + 1);
                        }
                        return None;
                    },
                };
                if i >= MAX_BIT24_SIZE - 2 {
                    proof {
                        lemma_paint_indexes_stuck(st_c, color, xs, k as int + 1);
                        lemma_paint_colors_stuck(st_m, cs, ci as int + 1);
                        lemma_paint_miners_stuck(blank(), ms, mi as int + 1);
                    }
                    return None;
                }
                data.set(i, (color / 65536 % 256) as u8);
                data.set(i + 1, (color / 256 % 256) as u8);
                data.set(i + 2, (color % 256) as u8);
                if i + 2 > max_i {
                    max_i = i + 2;
                }
                k = k + 1;
            }
            proof {
                assert(xs.take(k as int) =~= xs);
            }
            ci = ci + 1;
        }
        proof {
            assert(cs.take(ci as int) =~= cs);
        }
        mi = mi + 1;
    }
    proof {
        assert(ms.take(mi as int) =~= ms);
    }
    Some((data, max_i))
}

/// The contract host's environment, carried through to the host's hashing.
#[verifier::external_type_specification]
#[verifier::external_body]
pub struct ExEnv(soroban_sdk::Env);

/// The SHA-256 digest of a byte string.
pub uninterp spec fn sha256_digest(data: Seq<u8>) -> Seq<u8>;

/// Calls `soroban_sdk::crypto::Crypto::sha256` on the bytes: the contract
/// host hashes them. Claimed: the digest, as 32 bytes, is `sha256_digest`
/// of the bytes; nothing else is said of its value.
#[verifier::external_body]
pub(crate) fn sha256(env: &soroban_sdk::Env, data: &[u8]) -> (h: Hash32)
    ensures
        h.0@ == sha256_digest(data@),
{
    Hash32(env.crypto().sha256(&soroban_sdk::Bytes::from_slice(env, data)).to_array())
}

/// The pixel count recorded for a glyph whose identifying bytes are `bytes`:
/// one width byte, three bytes a pixel.
pub open spec fn pixel_count(bytes: Seq<u8>) -> u32 {
    ((bytes.len() - 1) / 3) as u32
}

/// The storage after a glyph with these colors, width and pixel count is
/// recorded under `hash`: it is owned by `to` (or `minter`), its first minter
/// is kept, and the glyph is written.
pub open spec fn stored(
    s: StorageView,
    minter: Address,
    to: Option<Address>,
    colors: ColorsView,
    width: u8,
    length: u32,
    hash: Hash32,
) -> StorageView {
    StorageView {
        owners: s.owners.insert(
            hash,
            match to {
                Some(a) => a,
                None => minter,
            },
        ),
        minters: if s.minters.contains_key(hash) {
            s.minters
        } else {
            s.minters.insert(hash, minter)
        },
        glyphs: s.glyphs.insert(hash, GlyphView { width: width as u32, length, colors }),
        ..s
    }
}

/// Records a finished glyph under its hash: its owner, `to` or else the
/// minter; the minter, unless the glyph had one already; and the glyph with
/// its width and pixel count.
pub fn glyph_record(
    storage: &mut Storage,
    hash: Hash32,
    minter: Address,
    to: Option<Address>,
    colors: GlyphColors,
    width: u8,
    length: u32,
)
    requires
        old(storage).wf(),
        colors.wf(),
        colors_wf(colors@),
    ensures
        final(storage).wf(),
        final(storage)@ == stored(old(storage)@, minter, to, colors@, width, length, hash),
{
    let owner = match to {
        Some(a) => a,
        None => minter,
    };
    write_glyph_owner(storage, &hash, &owner);
    if !storage.glyph_minters.contains_key(&hash) {
        storage.glyph_minters.set(hash, minter);
    }
    let ghost colors_view = colors@;
    storage.glyphs.set(hash, Glyph { width: width as u32, length, colors });
    proof {
        assert(storage.glyphs.map().contains_key(hash));
        assert forall|h: Hash32| #[trigger] storage.glyphs.map().contains_key(h) implies colors_wf(
            storage.glyphs.map()[h].colors,
        ) by {
            if h != hash {
                assert(old(storage).glyphs.map().contains_key(h));
            }
        }
    }
}

/// Records a finished glyph under the hash of its bytes and gives the hash.
pub fn glyph_store(
    storage: &mut Storage,
    env: &soroban_sdk::Env,
    minter: Address,
    to: Option<Address>,
    colors: GlyphColors,
    width: u8,
) -> (r: Result<Hash32, Failure>)
    requires
        old(storage).wf(),
        colors.wf(),
        colors_wf(colors@),
    ensures
        final(storage).wf(),
        match glyph_bytes(colors@, width) {
            None => r is Err && r->Err_0 == Failure::Trapped && final(storage)@ == old(storage)@,
            Some(bytes) => r is Ok && r->Ok_0.0@ == sha256_digest(bytes) && final(storage)@ == stored(
                old(storage)@,
                minter,
                to,
                colors@,
                width,
                pixel_count(bytes),
                r->Ok_0,
            ),
        },
{
    let (mut data, last) = match paint(&colors) {
        Some(p) => p,
        None => {
            return Err(Failure::Trapped);
        },
    };
    if last >= MAX_BIT24_SIZE - 1 {
        return Err(Failure::Trapped);
    }
    data.set(last + 1, width);
    data.truncate(last + 2);
    let hash = sha256(env, data.as_slice());
    let length: u32 = ((data.len() - 1) / 3) as u32;
    glyph_record(storage, hash, minter, to, colors, width, length);
    Ok(hash)
}

/// The owner of a glyph, whose authorization is required; `NotFound` when
/// the glyph has no owner.
pub fn glyph_verify_ownership(storage: &Storage, hash: &Hash32, actions: &mut Vec<Action>) -> (r: Result<Address, Failure>)
    requires
        storage.wf(),
    ensures
        r is Ok == storage@.owners.contains_key(*hash),
        r is Ok ==> r->Ok_0 == storage@.owners[*hash] && final(actions)@ == old(actions)@.push(
            Action::RequireAuth(r->Ok_0),
        ),
        r is Err ==> r->Err_0 == Failure::Refused(Error::NotFound) && final(actions)@ == old(actions)@,
{
    match read_glyph_owner(storage, hash) {
        Some(owner) => {
            actions.push(Action::RequireAuth(owner));
            Ok(owner)
        },
        None => Err(Failure::Refused(Error::NotFound)),
    }
}

pub open spec fn balance_of(m: Map<ColorKey, u32>, k: ColorKey) -> u32 {
    if m.contains_key(k) {
        m[k]
    } else {
        0
    }
}

/// Spends, in turn, one unit of each (`miner`, color) held by `minter` for
/// each index listed with the color; a balance too small traps.
pub open spec fn debit_colors(
    m: Map<ColorKey, u32>,
    miner: Address,
    minter: Address,
    cs: Seq<(u32, Seq<u32>)>,
) -> Option<Map<ColorKey, u32>>
    decreases cs.len(),
{
    if cs.len() == 0 {
        Some(m)
    } else {
        match debit_colors(m, miner, minter, cs.drop_last()) {
            None => None,
            Some(m1) => {
                let k = ColorKey { miner, owner: minter, color: cs.last().0 };
                let b = balance_of(m1, k);
                if b < cs.last().1.len() {
                    None
                } else {
                    Some(m1.insert(k, (b - cs.last().1.len()) as u32))
                }
            },
        }
    }
}

pub open spec fn debit_miners(m: Map<ColorKey, u32>, minter: Address, input: ColorsView) -> Option<
    Map<ColorKey, u32>,
>
    decreases input.len(),
{
    if input.len() == 0 {
        Some(m)
    } else {
        match debit_miners(m, minter, input.drop_last()) {
            None => None,
            Some(m1) => debit_colors(m1, input.last().0, minter, input.last().1),
        }
    }
}

/// The colors of a glyph after the `indexes` of (`miner`, `color`) are
/// appended to those it has.
pub open spec fn add_indexes(g: ColorsView, miner: Address, color: u32, indexes: Seq<u32>) -> ColorsView {
    let inner = if has_key(g, miner) {
        g[key_index(g, miner)].1
    } else {
        Seq::empty()
    };
    let prev = if has_key(inner, color) {
        inner[key_index(inner, color)].1
    } else {
        Seq::empty()
    };
    entries_set(g, miner, entries_set(inner, color, prev + indexes))
}

pub open spec fn add_colors(g: ColorsView, miner: Address, cs: Seq<(u32, Seq<u32>)>) -> ColorsView
    decreases cs.len(),
{
    if cs.len() == 0 {
        g
    } else {
        add_indexes(add_colors(g, miner, cs.drop_last()), miner, cs.last().0, cs.last().1)
    }
}

/// Adds the colors of one miner: all of them at once when the glyph has none
/// of that miner, else color by color.
pub open spec fn merge_miner(g: ColorsView, miner: Address, cs: Seq<(u32, Seq<u32>)>) -> ColorsView {
    if cs.len() == 0 {
        g
    } else if !has_key(g, miner) {
        entries_set(g, miner, cs)
    } else {
        add_colors(g, miner, cs)
    }
}

pub open spec fn merge_colors(g: ColorsView, input: ColorsView) -> ColorsView
    decreases input.len(),
{
    if input.len() == 0 {
        g
    } else {
        let (miner, cs) = input.last();
        merge_miner(merge_colors(g, input.drop_last()), miner, cs)
    }
}

pub proof fn lemma_debit_colors_stuck(
    m: Map<ColorKey, u32>,
    miner: Address,
    minter: Address,
    s: Seq<(u32, Seq<u32>)>,
    i: int,
)
    requires
        0 <= i <= s.len(),
        debit_colors(m, miner, minter, s.take(i)) is None,
    ensures
        debit_colors(m, miner, minter, s) is None,
    decreases s.len() - i,
{
    if i < s.len() {
        assert(s.take(i + 1).drop_last() =~= s.take(i));
        lemma_debit_colors_stuck(m, miner, minter, s, i + 1);
    } else {
        assert(s.take(i) =~= s);
    }
}

pub proof fn lemma_debit_miners_stuck(m: Map<ColorKey, u32>, minter: Address, s: ColorsView, i: int)
    requires
        0 <= i <= s.len(),
        debit_miners(m, minter, s.take(i)) is None,
    ensures
        debit_miners(m, minter, s) is None,
    decreases s.len() - i,
{
    if i < s.len() {
        assert(s.take(i + 1).drop_last() =~= s.take(i));
        lemma_debit_miners_stuck(m, minter, s, i + 1);
    } else {
        assert(s.take(i) =~= s);
    }
}

/// Spends the colors of `input` held by `minter`, one unit per listed index.
fn spend_colors(storage: &mut Storage, minter: &Address, input: &GlyphColors) -> (ok: bool)
    requires
        old(storage).wf(),
    ensures
        final(storage).wf(),
        ok == debit_miners(old(storage)@.colors, *minter, input@) is Some,
        ok ==> final(storage)@ == (StorageView {
            colors: debit_miners(old(storage)@.colors, *minter, input@)->0,
            ..old(storage)@
        }),
{
    let ghost s0 = storage@;
    let ghost ms = input@;
    let mut mi: usize = 0;
    while mi < input.len()
        invariant
            storage.wf(),
            s0 == old(storage)@,
            ms == input@,
            0 <= mi <= ms.len(),
            debit_miners(s0.colors, *minter, ms.take(mi as int)) == Some(storage@.colors),
            storage@ == (StorageView { colors: storage@.colors, ..s0 }),
        decreases ms.len() - mi,
    {
        let miner = input.key_at(mi);
        let inner = input.value_at(mi);
        let ghost cs = inner@;
        let ghost m_start = storage@.colors;
        proof {
            assert(ms.take(mi as int + 1).drop_last() =~= ms.take(mi as int));
        }
        let mut ci: usize = 0;
        while ci < inner.len()
            invariant
                storage.wf(),
                s0 == old(storage)@,
                ms == input@,
                0 <= mi < ms.len(),
                miner == ms[mi as int].0,
                cs == inner@,
                cs == ms[mi as int].1,
                debit_miners(s0.colors, *minter, ms.take(mi as int)) == Some(m_start),
                ms.take(mi as int + 1).drop_last() == ms.take(mi as int),
                0 <= ci <= cs.len(),
                debit_colors(m_start, miner, *minter, cs.take(ci as int)) == Some(storage@.colors),
                storage@ == (StorageView { colors: storage@.colors, ..s0 }),
            decreases cs.len() - ci,
        {
            let color = inner.key_at(ci);
            let indexes = inner.value_at(ci);
            proof {
                assert(cs.take(ci as int + 1).drop_last() =~= cs.take(ci as int));
            }
            let current = read_color(storage, &miner, minter, color);
            if (current as usize) < indexes.len() {
                proof {
                    lemma_debit_colors_stuck(m_start, miner, *minter, cs, ci as int + 1);
                    lemma_debit_miners_stuck(s0.colors, *minter, ms, mi as int + 1);
                }
                return false;
            }
            write_color(storage, &miner, minter, color, current - indexes.len() as u32);
            ci = ci + 1;
        }
        proof {
            assert(cs.take(ci as int) =~= cs);
        }
        mi = mi + 1;
    }
    proof {
        assert(ms.take(mi as int) =~= ms);
    }
    true
}

/// Setting a key to a value with increasing keys keeps both levels of a
/// colors map in increasing order.
pub proof fn lemma_colors_wf_set(g: ColorsView, miner: Address, inner: Seq<(u32, Seq<u32>)>)
    requires
        colors_wf(g),
        keys_increase(inner),
        keys_increase(entries_set(g, miner, inner)),
    ensures
        colors_wf(entries_set(g, miner, inner)),
{
    let t = entries_set(g, miner, inner);
    if has_key(g, miner) {
        let idx = key_index(g, miner);
        assert forall|i: int| 0 <= i < t.len() implies keys_increase(#[trigger] t[i].1) by {
            if i != idx {
                assert(t[i] == g[i]);
            }
        }
    } else {
        lemma_place_exists(g, miner);
        let p = choose|p: int| is_place(g, miner, p);
        assert forall|i: int| 0 <= i < t.len() implies keys_increase(#[trigger] t[i].1) by {
            if i < p {
                assert(t[i] == g[i]);
            } else if i > p {
                assert(t[i] == g[i - 1]);
            }
        }
    }
}

/// Appends the `indexes` of (`miner`, `color`) to the colors of a glyph.
fn add_indexes_into(colors: &mut GlyphColors, miner: Address, color: u32, indexes: &Vec<u32>)
    requires
        old(colors).wf(),
        colors_wf(old(colors)@),
    ensures
        final(colors).wf(),
        colors_wf(final(colors)@),
        final(colors)@ == add_indexes(old(colors)@, miner, color, indexes@),
{
    let ghost g = colors@;
    let mut inner: SortedMap<u32, Vec<u32>> = match colors.get(&miner) {
        Some(m) => m.duplicate(),
        None => SortedMap::new(),
    };
    proof {
        if has_key(g, miner) {
            let j = key_index(g, miner);
            assert(0 <= j < g.len());
        }
    }
    let mut v: Vec<u32> = match inner.get(&color) {
        Some(p) => p.duplicate(),
        None => Vec::new(),
    };
    let mut extra = indexes.duplicate();
    v.append(&mut extra);
    inner.set(color, v);
    let ghost iv = inner@;
    colors.set(miner, inner);
    proof {
        lemma_colors_wf_set(g, miner, iv);
    }
}

/// Adds the colors of `input` to those of a glyph.
fn merge_into(colors: &mut GlyphColors, input: &GlyphColors)
    requires
        old(colors).wf(),
        colors_wf(old(colors)@),
        colors_wf(input@),
    ensures
        final(colors).wf(),
        colors_wf(final(colors)@),
        final(colors)@ == merge_colors(old(colors)@, input@),
{
    let ghost g0 = colors@;
    let ghost ms = input@;
    let mut mi: usize = 0;
    while mi < input.len()
        invariant
            colors.wf(),
            colors_wf(colors@),
            colors_wf(ms),
            g0 == old(colors)@,
            ms == input@,
            0 <= mi <= ms.len(),
            colors@ == merge_colors(g0, ms.take(mi as int)),
        decreases ms.len() - mi,
    {
        let miner = input.key_at(mi);
        let cs = input.value_at(mi);
        let ghost g1 = colors@;
        proof {
            assert(ms.take(mi as int + 1).drop_last() =~= ms.take(mi as int));
            assert(keys_increase(ms[mi as int].1));
        }
        if cs.is_empty() {
        } else if !colors.contains_key(&miner) {
            let d = cs.duplicate();
            let ghost dv = d@;
            colors.set(miner, d);
            proof {
                lemma_colors_wf_set(g1, miner, dv);
            }
        } else {
            let mut ci: usize = 0;
            while ci < cs.len()
                invariant
                    colors.wf(),
                    colors_wf(colors@),
                    colors_wf(ms),
                    g0 == old(colors)@,
                    ms == input@,
                    0 <= mi < ms.len(),
                    miner == ms[mi as int].0,
                    cs@ == ms[mi as int].1,
                    g1 == merge_colors(g0, ms.take(mi as int)),
                    ms.take(mi as int + 1).drop_last() == ms.take(mi as int),
                    has_key(g1, miner),
                    0 <= ci <= cs@.len(),
                    colors@ == add_colors(g1, miner, cs@.take(ci as int)),
                decreases cs@.len() - ci,
            {
                proof {
                    assert(cs@.take(ci as int + 1).drop_last() =~= cs@.take(ci as int));
                }
                add_indexes_into(colors, miner, cs.key_at(ci), cs.value_at(ci));
                ci = ci + 1;
            }
            proof {
                assert(cs@.take(ci as int) =~= cs@);
            }
        }
        mi = mi + 1;
    }
    proof {
        assert(ms.take(mi as int) =~= ms);
    }
}

/// The glyph recorded under `hash`, or an empty one.
pub open spec fn glyph_or_default(s: StorageView, hash: Hash32) -> GlyphView {
    if s.glyphs.contains_key(hash) {
        s.glyphs[hash]
    } else {
        GlyphView { width: 0, length: 0, colors: Seq::empty() }
    }
}

/// Minting, in steps: a glyph that has a width or a length is minted
/// already; an empty glyph gets `to` (or `minter`) as owner, while one being
/// built needs its owner's authorization and then passes to `to` (or
/// `minter`); `minter` spends the colors; the colors join the glyph's. With
/// no width the glyph is kept as it is being built; with a width the glyph
/// is finished, and its hash must be `hash`.
pub open spec fn mint_outcome(
    s: StorageView,
    hash: Hash32,
    minter: Address,
    to: Option<Address>,
    input: ColorsView,
    width: Option<u32>,
) -> Result<(StorageView, Seq<Action>), Failure> {
    let g = glyph_or_default(s, hash);
    let new_owner = match to {
        Some(a) => a,
        None => minter,
    };
    if g.width != 0 || g.length != 0 {
        Err(Failure::Refused(Error::NotEmpty))
    } else if g.colors.len() != 0 && !s.owners.contains_key(hash) {
        Err(Failure::Refused(Error::NotFound))
    } else {
        let auth = if g.colors.len() == 0 {
            Seq::<Action>::empty()
        } else {
            seq![Action::RequireAuth(s.owners[hash])]
        };
        let s1 = StorageView { owners: s.owners.insert(hash, new_owner), ..s };
        match debit_miners(s.colors, minter, input) {
            None => Err(Failure::Trapped),
            Some(colors) => {
                let s2 = StorageView { colors, ..s1 };
                let merged = merge_colors(g.colors, input);
                match width {
                    None => Ok(
                        (
                            StorageView {
                                glyphs: s2.glyphs.insert(
                                    hash,
                                    GlyphView { width: g.width, length: g.length, colors: merged },
                                ),
                                ..s2
                            },
                            auth.push(Action::Publish(Event::Minting { minter })),
                        ),
                    ),
                    Some(w) => match glyph_bytes(merged, w as u8) {
                        None => Err(Failure::Trapped),
                        Some(bytes) => if sha256_digest(bytes) != hash.0@ {
                            Err(Failure::Refused(Error::NotPermitted))
                        } else {
                            Ok(
                                (
                                    stored(s2, minter, to, merged, w as u8, pixel_count(bytes), hash),
                                    auth.push(Action::Publish(Event::Minted { minter, to, hash })),
                                ),
                            )
                        },
                    },
                }
            },
        }
    }
}

/// The steps of minting; see `mint_outcome`. On a failure the storage may be
/// left part-way: `mint_into` runs them on a copy.
fn mint_steps(
    storage: &mut Storage,
    env: &soroban_sdk::Env,
    hash: Hash32,
    minter: Address,
    to: Option<Address>,
    colors: &GlyphColors,
    width: Option<u32>,
) -> (r: Result<Vec<Action>, Failure>)
    requires
        old(storage).wf(),
        colors.wf(),
        colors_wf(colors@),
    ensures
        final(storage).wf(),
        match mint_outcome(old(storage)@, hash, minter, to, colors@, width) {
            Ok((s, a)) => r is Ok && r->Ok_0@ == a && final(storage)@ == s,
            Err(f) => r is Err && r->Err_0 == f,
        },
{
    let ghost s0 = storage@;
    let mut actions: Vec<Action> = Vec::new();
    let mut glyph = read_glyph_or_default(storage, &hash);
    if glyph.width != 0 || glyph.length != 0 {
        return Err(Failure::Refused(Error::NotEmpty));
    }
    let new_owner = match to {
        Some(a) => a,
        None => minter,
    };
    if glyph.colors.is_empty() {
        write_glyph_owner(storage, &hash, &new_owner);
    } else {
        let existing_owner = match glyph_verify_ownership(storage, &hash, &mut actions) {
            Ok(o) => o,
            Err(f) => {
                return Err(f);
            },
        };
        match existing_owner.compare(&new_owner) {
            Cmp::Equal => {
                proof {
                    assert(s0.owners.insert(hash, new_owner) =~= s0.owners);
                }
            },
            _ => {
                write_glyph_owner(storage, &hash, &new_owner);
            },
        }
    }
    proof {
        assert(actions@ =~= (if glyph@.colors.len() == 0 {
            Seq::<Action>::empty()
        } else {
            seq![Action::RequireAuth(s0.owners[hash])]
        }));
    }
    if !spend_colors(storage, &minter, colors) {
        return Err(Failure::Trapped);
    }
    merge_into(&mut glyph.colors, colors);
    match width {
        Some(w) => {
            let computed = match glyph_store(storage, env, minter, to, glyph.colors, w as u8) {
                Ok(h) => h,
                Err(f) => {
                    return Err(f);
                },
            };
            match computed.compare(&hash) {
                Cmp::Equal => {},
                _ => {
                    proof {
                        if computed.0@ == hash.0@ {
                            assert(computed.0 =~= hash.0);
                        }
                    }
                    return Err(Failure::Refused(Error::NotPermitted));
                },
            }
            actions.push(Action::Publish(Event::Minted { minter, to, hash }));
        },
        None => {
            let ghost gv = glyph@;
            storage.glyphs.set(hash, glyph);
            proof {
                assert forall|h: Hash32| #[trigger] storage.glyphs.map().contains_key(h) implies colors_wf(
                    storage.glyphs.map()[h].colors,
                ) by {
                    if h != hash {
                        assert(old(storage).glyphs.map().contains_key(h));
                    }
                }
            }
            actions.push(Action::Publish(Event::Minting { minter }));
        },
    }
    Ok(actions)
}

/// Mints, or goes on minting, the glyph `hash`; see `mint_outcome`. A
/// failure leaves the storage as it was.
pub fn mint_into(
    storage: &mut Storage,
    env: &soroban_sdk::Env,
    hash: Hash32,
    minter: Address,
    to: Option<Address>,
    colors: &GlyphColors,
    width: Option<u32>,
) -> (r: Result<Vec<Action>, Failure>)
    requires
        old(storage).wf(),
        colors.wf(),
        colors_wf(colors@),
    ensures
        final(storage).wf(),
        match mint_outcome(old(storage)@, hash, minter, to, colors@, width) {
            Ok((s, a)) => r is Ok && r->Ok_0@ == a && final(storage)@ == s,
            Err(f) => r is Err && r->Err_0 == f && final(storage)@ == old(storage)@,
        },
{
    let mut work = storage.duplicate();
    let r = mint_steps(&mut work, env, hash, minter, to, colors, width);
    if r.is_ok() {
        *storage = work;
    }
    r
}

/// Scraping the colors of one miner: while fewer than `max` payments are
/// made, credit `to` with each color's index count, in color order. Gives the
/// balances and the payments made so far.
pub open spec fn scrape_colors(
    m: Map<ColorKey, u32>,
    miner: Address,
    to: Address,
    cs: Seq<(u32, Seq<u32>)>,
    count: int,
    max: int,
) -> Option<(Map<ColorKey, u32>, int)>
    decreases cs.len(),
{
    if cs.len() == 0 || count >= max {
        Some((m, count))
    } else {
        let k = ColorKey { miner, owner: to, color: cs[0].0 };
        let b = balance_of(m, k) + cs[0].1.len();
        if b > u32::MAX {
            None
        } else {
            scrape_colors(m.insert(k, b as u32), miner, to, cs.drop_first(), count + 1, max)
        }
    }
}

/// Scraping miner by miner while fewer than `max` payments are made; a
/// miner's colors that are paid leave the glyph, and a miner left with none
/// leaves it. Gives the balances, the glyph's remaining colors, and the count.
pub open spec fn scrape_miners(
    m: Map<ColorKey, u32>,
    rem: ColorsView,
    to: Address,
    ms: ColorsView,
    count: int,
    max: int,
) -> Option<(Map<ColorKey, u32>, ColorsView, int)>
    decreases ms.len(),
{
    if ms.len() == 0 || count >= max {
        Some((m, rem, count))
    } else {
        let (miner, cs) = ms[0];
        match scrape_colors(m, miner, to, cs, count, max) {
            None => None,
            Some((m1, c1)) => {
                let left = cs.skip(c1 - count);
                let rem1 = if left.len() == 0 {
                    entries_remove(rem, miner)
                } else {
                    entries_set(rem, miner, left)
                };
                scrape_miners(m1, rem1, to, ms.drop_first(), c1, max)
            },
        }
    }
}

/// Scraping: the owner (whose authorization is required) takes back the
/// glyph's colors, at most `max_payment_count` (miner, color) entries at a
/// time, into the balances of `to` (or the owner). A finished glyph loses its
/// sell offers, and the glyph becomes one being built, with the colors left.
pub open spec fn scrape_outcome(s: StorageView, to: Option<Address>, hash: Hash32) -> Result<
    (StorageView, Seq<Action>),
    Failure,
> {
    if !s.owners.contains_key(hash) {
        Err(Failure::Refused(Error::NotFound))
    } else if !s.glyphs.contains_key(hash) {
        Err(Failure::Refused(Error::NotFound))
    } else {
        let owner = s.owners[hash];
        let g = s.glyphs[hash];
        let s1 = if g.width != 0 || g.length != 0 {
            StorageView { glyph_offers: s.glyph_offers.remove(hash), ..s }
        } else {
            s
        };
        let to_address = match to {
            Some(a) => a,
            None => owner,
        };
        match s.config {
            None => Err(Failure::Refused(Error::NotInitialized)),
            Some(cfg) => match scrape_miners(
                s.colors,
                g.colors,
                to_address,
                g.colors,
                0,
                (cfg.max_payment_count as u8) as int,
            ) {
                None => Err(Failure::Trapped),
                Some((m, rem, _)) => Ok(
                    (
                        StorageView {
                            colors: m,
                            glyphs: s1.glyphs.insert(
                                hash,
                                GlyphView { width: 0, length: 0, colors: rem },
                            ),
                            ..s1
                        },
                        seq![
                            Action::RequireAuth(owner),
                            Action::Publish(Event::ScrapeGlyph { owner, to, hash }),
                        ],
                    ),
                ),
            },
        }
    }
}

/// Removing the first key of entries in increasing order drops the first entry.
pub proof fn lemma_remove_first<K: Ordered, W>(s: Seq<(K, W)>)
    requires
        keys_increase(s),
        s.len() > 0,
    ensures
        entries_remove(s, s[0].0) == s.drop_first(),
{
    crate::sorted_map::lemma_entry(s, 0);
    assert(s.remove(0) =~= s.drop_first());
}

/// Removing a key keeps both levels of a colors map in increasing order.
pub proof fn lemma_colors_wf_remove(g: ColorsView, miner: Address)
    requires
        colors_wf(g),
        keys_increase(entries_remove(g, miner)),
    ensures
        colors_wf(entries_remove(g, miner)),
{
    let t = entries_remove(g, miner);
    if has_key(g, miner) {
        let idx = key_index(g, miner);
        assert forall|i: int| 0 <= i < t.len() implies keys_increase(#[trigger] t[i].1) by {
            if i < idx {
                assert(t[i] == g[i]);
            } else {
                assert(t[i] == g[i + 1]);
            }
        }
    }
}

pub proof fn lemma_keys_increase_skip<K: Ordered, W>(s: Seq<(K, W)>, n: int)
    requires
        keys_increase(s),
        0 <= n <= s.len(),
    ensures
        keys_increase(s.skip(n)),
{
    let t = s.skip(n);
    assert forall|i: int, j: int| 0 <= i < j < t.len() implies (#[trigger] t[i]).0.precedes(
        (#[trigger] t[j]).0,
    ) by {
        assert(t[i] == s[i + n] && t[j] == s[j + n]);
    }
}

/// Credits `to_address` with the colors of a glyph, miner by miner and color
/// by color, until `max` payments are made; gives the colors left.
fn take_back_colors(storage: &mut Storage, colors: &GlyphColors, to_address: Address, max: u8) -> (r:
    Option<GlyphColors>)
    requires
        old(storage).wf(),
        colors.wf(),
        colors_wf(colors@),
    ensures
        final(storage).wf(),
        match scrape_miners(old(storage)@.colors, colors@, to_address, colors@, 0, max as int) {
            None => r is None,
            Some((m, rem, _)) => r matches Some(g) && g@ == rem && g.wf() && colors_wf(g@)
                && final(storage)@ == (StorageView { colors: m, ..old(storage)@ }),
        },
{
    let ghost ms = colors@;
    let mut remaining = colors.duplicate();
    let mut payment_count: u8 = 0;
    proof {
        assert(ms.skip(0) =~= ms);
    }
    let mut mi: usize = 0;
    while mi < colors.len() && payment_count < max
        invariant
            storage.wf(),
            ms == colors@,
            colors_wf(ms),
            remaining.wf(),
            colors_wf(remaining@),
            0 <= mi <= ms.len(),
            payment_count <= max,
            scrape_miners(old(storage)@.colors, ms, to_address, ms, 0, max as int) == scrape_miners(
                storage@.colors,
                remaining@,
                to_address,
                ms.skip(mi as int),
                payment_count as int,
                max as int,
            ),
            storage@ == (StorageView { colors: storage@.colors, ..old(storage)@ }),
        decreases ms.len() - mi,
    {
        let miner = colors.key_at(mi);
        let cs = colors.value_at(mi);
        let ghost m_start = storage@.colors;
        let ghost count_start = payment_count as int;
        let ghost csv = cs@;
        proof {
            assert(ms.skip(mi as int)[0] == ms[mi as int]);
            assert(ms.skip(mi as int).drop_first() =~= ms.skip(mi as int + 1));
            assert(keys_increase(csv));
        }
        let mut working = cs.duplicate();
        let mut ci: usize = 0;
        let ghost rem_start = remaining@;
        proof {
            assert(csv.skip(0) =~= csv);
        }
        while ci < cs.len() && payment_count < max
            invariant
                storage.wf(),
                csv == cs@,
                keys_increase(csv),
                working.wf(),
                working@ == csv.skip(ci as int),
                0 <= ci <= csv.len(),
                payment_count <= max,
                payment_count as int == count_start + ci,
                scrape_colors(m_start, miner, to_address, csv, count_start, max as int)
                    == scrape_colors(
                    storage@.colors,
                    miner,
                    to_address,
                    csv.skip(ci as int),
                    payment_count as int,
                    max as int,
                ),
                storage@ == (StorageView { colors: storage@.colors, ..old(storage)@ }),
                0 <= mi < ms.len(),
                ms == colors@,
                ms.skip(mi as int)[0] == (miner, csv),
                ms.skip(mi as int).len() > 0,
                count_start < max,
                rem_start == remaining@,
                scrape_miners(old(storage)@.colors, ms, to_address, ms, 0, max as int)
                    == scrape_miners(
                    m_start,
                    rem_start,
                    to_address,
                    ms.skip(mi as int),
                    count_start,
                    max as int,
                ),
            decreases csv.len() - ci,
        {
            let color = cs.key_at(ci);
            let indexes = cs.value_at(ci);
            proof {
                assert(csv.skip(ci as int)[0] == csv[ci as int]);
                assert(csv.skip(ci as int).drop_first() =~= csv.skip(ci as int + 1));
            }
            let current_amount = read_color(storage, &miner, &to_address, color);
            if indexes.len() > (u32::MAX - current_amount) as usize {
                return None;
            }
            write_color(storage, &miner, &to_address, color, current_amount + indexes.len() as u32);
            proof {
                lemma_remove_first(working@);
                lemma_keys_increase_skip(csv, ci as int + 1);
            }
            working.remove(&color);
            payment_count = payment_count + 1;
            ci = ci + 1;
        }
        proof {
            if ci < csv.len() {
                assert(payment_count >= max);
            } else {
                assert(csv.skip(ci as int).len() == 0);
            }
        }
        if working.is_empty() {
            let ghost rv = remaining@;
            remaining.remove(&miner);
            proof {
                lemma_colors_wf_remove(rv, miner);
            }
        } else {
            let ghost rv = remaining@;
            let ghost wv = working@;
            remaining.set(miner, working);
            proof {
                lemma_colors_wf_set(rv, miner, wv);
            }
        }
        mi = mi + 1;
    }
    proof {
        if mi < ms.len() {
            assert(payment_count >= max);
        } else {
            assert(ms.skip(mi as int).len() == 0);
        }
    }
    Some(remaining)
}

/// The steps of scraping; see `scrape_outcome`. On a failure the storage may
/// be left part-way: `scrape_into` runs them on a copy.
fn scrape_steps(storage: &mut Storage, to: Option<Address>, hash: Hash32) -> (r: Result<
    Vec<Action>,
    Failure,
>)
    requires
        old(storage).wf(),
    ensures
        final(storage).wf(),
        match scrape_outcome(old(storage)@, to, hash) {
            Ok((s, a)) => r is Ok && r->Ok_0@ == a && final(storage)@ == s,
            Err(f) => r is Err && r->Err_0 == f,
        },
{
    let ghost s0 = storage@;
    let mut actions: Vec<Action> = Vec::new();
    let owner = match glyph_verify_ownership(storage, &hash, &mut actions) {
        Ok(o) => o,
        Err(f) => {
            return Err(f);
        },
    };
    let snapshot = match read_glyph_or_error(storage, &hash) {
        Ok(g) => g.duplicate(),
        Err(e) => {
            return Err(Failure::Refused(e));
        },
    };
    proof {
        assert(colors_wf(s0.glyphs[hash].colors));
    }
    if snapshot.width != 0 || snapshot.length != 0 {
        remove_glyph_offer(storage, &hash);
    }
    let ghost s1 = storage@;
    actions.push(Action::Publish(Event::ScrapeGlyph { owner, to, hash }));
    let to_address = match to {
        Some(a) => a,
        None => owner,
    };
    let max_payment_count: u8 = match read_max_payment_count(storage) {
        Ok(m) => #[verifier::truncate] (m as u8),
        Err(e) => {
            return Err(Failure::Refused(e));
        },
    };
    let remaining = match take_back_colors(storage, &snapshot.colors, to_address, max_payment_count) {
        Some(g) => g,
        None => {
            return Err(Failure::Trapped);
        },
    };
    storage.glyphs.set(hash, Glyph { width: 0, length: 0, colors: remaining });
    proof {
        assert forall|h: Hash32| #[trigger] storage.glyphs.map().contains_key(h) implies colors_wf(
            storage.glyphs.map()[h].colors,
        ) by {
            if h != hash {
                assert(s1.glyphs.contains_key(h));
            }
        }
    }
    Ok(actions)
}

/// Takes colors back out of the glyph `hash`; see `scrape_outcome`. A
/// failure leaves the storage as it was.
pub fn scrape_into(storage: &mut Storage, to: Option<Address>, hash: Hash32) -> (r: Result<
    Vec<Action>,
    Failure,
>)
    requires
        old(storage).wf(),
    ensures
        final(storage).wf(),
        match scrape_outcome(old(storage)@, to, hash) {
            Ok((s, a)) => r is Ok && r->Ok_0@ == a && final(storage)@ == s,
            Err(f) => r is Err && r->Err_0 == f && final(storage)@ == old(storage)@,
        },
{
    let mut work = storage.duplicate();
    let r = scrape_steps(&mut work, to, hash);
    if r.is_ok() {
        *storage = work;
    }
    r
}

} // verus!

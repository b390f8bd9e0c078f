//! Data model and persisted layout.
//!
//! Bins live on an unbounded grid but are materialized in fixed windows of
//! [`BIN_VEC_SIZE`] consecutive slots. A stored window keeps each slot as a
//! compressed list of one or two reserves; decoding needs the current active
//! bin to know which side the single value belongs to. Positions are
//! ascending lists of per-bin share records.

use vstd::prelude::*;
use vstd::arithmetic::div_mod::{lemma_fundamental_div_mod, lemma_fundamental_div_mod_converse};
use crate::constants::BIN_VEC_SIZE;

verus! {

/// Total LP shares minted against one bin.
#[derive(Clone, Copy, Debug, Default, PartialEq, Eq, Structural)]
pub struct BinShares {
    pub bin_id: i32,
    pub shares: i128,
}

/// Reserves held at one price tick. Away from the active bin at most one
/// side is populated; both may be populated only at the active bin.
#[derive(Clone, Copy, Debug, Default, PartialEq, Eq, Structural)]
pub struct Bin {
    pub bin_id: i32,
    pub reserve_x: i128,
    pub reserve_y: i128,
}

/// One action of a liquidity batch. `bin_id_or_offset` is either the bin id
/// or an offset from the active bin; `amount` is a token amount for a
/// deposit and a share amount for a removal.
#[derive(Clone, Copy, Debug, PartialEq, Eq, Structural)]
pub struct DepositArgs {
    pub is_remove: bool,
    pub bin_id_or_offset: i32,
    pub amount: i128,
}

/// Global pool parameters. Tokens are named by opaque integer identifiers;
/// `bin_step` is in basis points, `fee` in units of `1/FEE_SCALAR`.
#[derive(Clone, Copy, Debug, PartialEq, Eq, Structural)]
pub struct Config {
    pub token_x: u64,
    pub token_y: u64,
    pub bin_step: u32,
    pub active_bin: i32,
    pub fee: u32,
}

/// A user's holdings across bins: share records strictly ascending in
/// `bin_id`, none of them empty.
#[derive(Clone, Debug, PartialEq)]
pub struct Position {
    pub bin_shares: Vec<BinShares>,
}

/// Share records are strictly ascending in `bin_id`.
pub open spec fn shares_sorted(s: Seq<BinShares>) -> bool {
    forall|i: int, j: int| 0 <= i < j < s.len() ==> s[i].bin_id < s[j].bin_id
}

/// No share record is negative.
pub open spec fn shares_nonneg(s: Seq<BinShares>) -> bool {
    forall|i: int| 0 <= i < s.len() ==> s[i].shares >= 0
}

/// Every share record is strictly positive.
pub open spec fn shares_positive(s: Seq<BinShares>) -> bool {
    forall|i: int| 0 <= i < s.len() ==> s[i].shares > 0
}

/// The id of the window holding a bin: floor division by the window size.
pub open spec fn spec_vec_id_for_bin(bin_id: int) -> int {
    bin_id / (BIN_VEC_SIZE as int)
}

/// The slot of a bin inside its window.
pub open spec fn spec_bin_slot(bin_id: int) -> int {
    bin_id % (BIN_VEC_SIZE as int)
}

/// Law: a bin id is recovered exactly from its window id and slot,
/// for every integer bin id.
pub proof fn lemma_vec_id_slot_identity(bin_id: int)
    ensures
        spec_vec_id_for_bin(bin_id) * (BIN_VEC_SIZE as int) + spec_bin_slot(bin_id) == bin_id,
        0 <= spec_bin_slot(bin_id) < BIN_VEC_SIZE as int,
{
    lemma_fundamental_div_mod(bin_id, BIN_VEC_SIZE as int);
    vstd::arithmetic::div_mod::lemma_mod_bound(bin_id, BIN_VEC_SIZE as int);
}

/// Bins are stored in windows of `BIN_VEC_SIZE`; this finds the window id
/// (floor division toward negative infinity) for a given bin.
pub fn get_vec_id_for_bin(bin_id: i32) -> (r: i32)
    ensures
        r as int == spec_vec_id_for_bin(bin_id as int),
{
    if bin_id >= 0 {
        (bin_id as u32 / 32) as i32
    } else {
        let m: u32 = (-(bin_id as i64)) as u32;
        let q: u32 = m / 32;
        let s: u32 = m % 32;
        proof {
            lemma_fundamental_div_mod(m as int, 32);
            if s == 0 {
                lemma_fundamental_div_mod_converse(bin_id as int, 32, -(q as int), 0);
            } else {
                lemma_fundamental_div_mod_converse(
                    bin_id as int, 32, -(q as int) - 1, 32 - s as int,
                );
            }
        }
        if s == 0 {
            -(q as i32)
        } else {
            -(q as i32) - 1
        }
    }
}

/// The lowest bin id held by a window.
pub fn get_first_bin_id_in_vec(vec_id: i32) -> (r: i32)
    requires
        i32::MIN <= (vec_id as int) * (BIN_VEC_SIZE as int),
        (vec_id as int) * (BIN_VEC_SIZE as int) + BIN_VEC_SIZE as int - 1 <= i32::MAX,
    ensures
        r as int == (vec_id as int) * (BIN_VEC_SIZE as int),
{
    vec_id * BIN_VEC_SIZE
}

/// The compressed form of one stored slot: both reserves when both are
/// populated, otherwise the single (possibly zero) populated side.
pub open spec fn spec_bin_to_raw(bin: Bin) -> Seq<i128> {
    if bin.reserve_x > 0 && bin.reserve_y > 0 {
        seq![bin.reserve_x, bin.reserve_y]
    } else if bin.reserve_x > 0 {
        seq![bin.reserve_x]
    } else {
        seq![bin.reserve_y]
    }
}

/// Encode one bin into its compressed stored form.
pub fn bin_to_vec(bin: &Bin) -> (r: Vec<i128>)
    ensures
        r@ == spec_bin_to_raw(*bin),
{
    let mut v: Vec<i128> = Vec::new();
    if bin.reserve_x > 0 && bin.reserve_y > 0 {
        v.push(bin.reserve_x);
        v.push(bin.reserve_y);
    } else if bin.reserve_x > 0 {
        v.push(bin.reserve_x);
    } else {
        v.push(bin.reserve_y);
    }
    proof {
        assert(v@ =~= spec_bin_to_raw(*bin));
    }
    v
}

/// The bin a stored slot decodes to, given the current active bin: below or
/// at the active bin the first value is the X reserve; above it, the Y
/// reserve; the active slot's second value, when present, is Y.
pub open spec fn spec_decoded_bin(entry: Seq<i128>, bin_id: i32, active_bin: i32) -> Bin {
    Bin {
        bin_id: bin_id,
        reserve_x: if bin_id <= active_bin && entry.len() >= 1 {
            entry[0]
        } else {
            0
        },
        reserve_y: if bin_id > active_bin && entry.len() >= 1 {
            entry[0]
        } else if bin_id == active_bin && entry.len() >= 2 {
            entry[1]
        } else {
            0
        },
    }
}

/// Law: decoding a slot under the active bin it was encoded for returns the
/// bin unchanged, as long as the bin is one-sided away from the active bin
/// and its Y side is populated at the active bin only together with X. The
/// excluded corner (only Y populated at the active slot) is collapsed by the
/// compressed encoding itself.
pub proof fn lemma_bin_codec_roundtrip(bin: Bin, active_bin: i32)
    requires
        bin.reserve_x >= 0,
        bin.reserve_y >= 0,
        bin.bin_id < active_bin ==> bin.reserve_y == 0,
        bin.bin_id > active_bin ==> bin.reserve_x == 0,
        bin.bin_id == active_bin && bin.reserve_y > 0 ==> bin.reserve_x > 0,
    ensures
        spec_decoded_bin(spec_bin_to_raw(bin), bin.bin_id, active_bin) == bin,
{
}

/// Decode a stored window of compressed slots into bins, under the given
/// active bin. Slot `i` of window `vec_id` holds bin `vec_id * BIN_VEC_SIZE + i`.
pub fn raw_to_bin_vec(raw: &Vec<Vec<i128>>, vec_id: i32, active_bin: i32) -> (r: Vec<Bin>)
    requires
        raw@.len() == BIN_VEC_SIZE as int,
        i32::MIN <= (vec_id as int) * (BIN_VEC_SIZE as int),
        (vec_id as int) * (BIN_VEC_SIZE as int) + BIN_VEC_SIZE as int - 1 <= i32::MAX,
    ensures
        r@.len() == BIN_VEC_SIZE as int,
        forall|i: int| 0 <= i < BIN_VEC_SIZE as int ==> r@[i] == spec_decoded_bin(
            raw@[i]@, ((vec_id as int) * (BIN_VEC_SIZE as int) + i) as i32, active_bin,
        ),
{
    let first = get_first_bin_id_in_vec(vec_id);
    let mut r: Vec<Bin> = Vec::new();
    let mut i: usize = 0;
    while i < BIN_VEC_SIZE as usize
        invariant
            0 <= i <= BIN_VEC_SIZE as int,
            raw@.len() == BIN_VEC_SIZE as int,
            first as int == (vec_id as int) * (BIN_VEC_SIZE as int),
            first as int + BIN_VEC_SIZE as int - 1 <= i32::MAX,
            r@.len() == i as int,
            forall|j: int| 0 <= j < i as int ==> r@[j] == spec_decoded_bin(
                raw@[j]@, ((vec_id as int) * (BIN_VEC_SIZE as int) + j) as i32, active_bin,
            ),
        decreases BIN_VEC_SIZE as int - i as int,
    {
        let bin_id = first + i as i32;
        let entry = &raw[i];
        let reserve_x: i128 = if bin_id <= active_bin && entry.len() >= 1 {
            entry[0]
        } else {
            0
        };
        let reserve_y: i128 = if bin_id > active_bin && entry.len() >= 1 {
            entry[0]
        } else if bin_id == active_bin && entry.len() >= 2 {
            entry[1]
        } else {
            0
        };
        r.push(Bin { bin_id, reserve_x, reserve_y });
        i = i + 1;
    }
    r
}

/// Encode a window of bins into its compressed stored form.
pub fn bin_vec_to_raw(vec: &Vec<Bin>) -> (r: Vec<Vec<i128>>)
    requires
        vec@.len() == BIN_VEC_SIZE as int,
    ensures
        r@.len() == BIN_VEC_SIZE as int,
        forall|i: int| 0 <= i < BIN_VEC_SIZE as int ==> r@[i]@ == spec_bin_to_raw(vec@[i]),
{
    let mut r: Vec<Vec<i128>> = Vec::new();
    let mut i: usize = 0;
    while i < BIN_VEC_SIZE as usize
        invariant
            0 <= i <= BIN_VEC_SIZE as int,
            vec@.len() == BIN_VEC_SIZE as int,
            r@.len() == i as int,
            forall|j: int| 0 <= j < i as int ==> r@[j]@ == spec_bin_to_raw(vec@[j]),
        decreases BIN_VEC_SIZE as int - i as int,
    {
        r.push(bin_to_vec(&vec[i]));
        i = i + 1;
    }
    r
}

/// Decode a stored window of raw share counts.
pub fn raw_to_shares_vec(raw: &Vec<i128>, vec_id: i32) -> (r: Vec<BinShares>)
    requires
        raw@.len() == BIN_VEC_SIZE as int,
        i32::MIN <= (vec_id as int) * (BIN_VEC_SIZE as int),
        (vec_id as int) * (BIN_VEC_SIZE as int) + BIN_VEC_SIZE as int - 1 <= i32::MAX,
    ensures
        r@.len() == BIN_VEC_SIZE as int,
        forall|i: int| 0 <= i < BIN_VEC_SIZE as int ==> r@[i] == (BinShares {
            bin_id: ((vec_id as int) * (BIN_VEC_SIZE as int) + i) as i32,
            shares: raw@[i],
        }),
{
    let first = get_first_bin_id_in_vec(vec_id);
    let mut r: Vec<BinShares> = Vec::new();
    let mut i: usize = 0;
    while i < BIN_VEC_SIZE as usize
        invariant
            0 <= i <= BIN_VEC_SIZE as int,
            raw@.len() == BIN_VEC_SIZE as int,
            first as int == (vec_id as int) * (BIN_VEC_SIZE as int),
            first as int + BIN_VEC_SIZE as int - 1 <= i32::MAX,
            r@.len() == i as int,
            forall|j: int| 0 <= j < i as int ==> r@[j] == (BinShares {
                bin_id: ((vec_id as int) * (BIN_VEC_SIZE as int) + j) as i32,
                shares: raw@[j],
            }),
        decreases BIN_VEC_SIZE as int - i as int,
    {
        let bin_id = first + i as i32;
        r.push(BinShares { bin_id, shares: raw[i] });
        i = i + 1;
    }
    r
}

/// The key of a stored position: its owner and the owner-chosen id.
#[derive(Clone, Copy, Debug, PartialEq, Eq, Structural)]
pub struct PositionKey {
    pub owner: u64,
    pub position_id: i32,
}

/// The value stored under an integer key, scanning first match.
pub open spec fn find_assoc<V>(s: Seq<(i32, V)>, id: i32) -> Option<V>
    decreases s.len(),
{
    if s.len() == 0 {
        None
    } else if s[0].0 == id {
        Some(s[0].1)
    } else {
        find_assoc(s.skip(1), id)
    }
}

/// The store after binding `id` to `val`: the first entry for `id` is
/// replaced, or a new entry is appended.
pub open spec fn spec_assoc_put<V>(s: Seq<(i32, V)>, id: i32, val: V) -> Seq<(i32, V)>
    decreases s.len(),
{
    if s.len() == 0 {
        seq![(id, val)]
    } else if s[0].0 == id {
        s.update(0, (id, val))
    } else {
        seq![s[0]] + spec_assoc_put(s.skip(1), id, val)
    }
}

/// A scan that hits `id` at `i` past misses finds `s[i]`.
proof fn lemma_assoc_hit<V>(s: Seq<(i32, V)>, id: i32, i: int)
    requires
        0 <= i < s.len(),
        s[i].0 == id,
        forall|j: int| 0 <= j < i ==> s[j].0 != id,
    ensures
        find_assoc(s, id) == Some(s[i].1),
    decreases i,
{
    if i > 0 {
        lemma_assoc_hit(s.skip(1), id, i - 1);
    }
}

/// A scan that misses everywhere finds nothing.
pub proof fn lemma_assoc_miss<V>(s: Seq<(i32, V)>, id: i32)
    requires
        forall|j: int| 0 <= j < s.len() ==> s[j].0 != id,
    ensures
        find_assoc(s, id) is None,
    decreases s.len(),
{
    if s.len() > 0 {
        lemma_assoc_miss(s.skip(1), id);
    }
}

/// Where the scan's first match at `i` is, the put acts there.
proof fn lemma_assoc_put_at<V>(s: Seq<(i32, V)>, id: i32, val: V, i: int)
    requires
        0 <= i <= s.len(),
        forall|j: int| 0 <= j < i ==> s[j].0 != id,
        i < s.len() ==> s[i].0 == id,
    ensures
        i == s.len() ==> spec_assoc_put(s, id, val) == s.push((id, val)),
        i < s.len() ==> spec_assoc_put(s, id, val) == s.update(i, (id, val)),
    decreases i,
{
    if i == 0 {
        if s.len() == 0 {
            assert(spec_assoc_put(s, id, val) =~= s.push((id, val)));
        }
    } else {
        lemma_assoc_put_at(s.skip(1), id, val, i - 1);
        if i == s.len() {
            assert(spec_assoc_put(s, id, val) =~= s.push((id, val)));
        } else {
            assert(spec_assoc_put(s, id, val) =~= s.update(i, (id, val)));
        }
    }
}

/// Every entry of a put result is the new binding or one of the old entries.
pub proof fn lemma_assoc_put_entries<V>(s: Seq<(i32, V)>, id: i32, val: V)
    ensures
        forall|k: int| 0 <= k < spec_assoc_put(s, id, val).len() ==> spec_assoc_put(s, id, val)[k]
            == (id, val) || (exists|j: int| 0 <= j < s.len() && s[j]
            == #[trigger] spec_assoc_put(s, id, val)[k]),
    decreases s.len(),
{
    if s.len() == 0 {
    } else if s[0].0 == id {
    } else {
        lemma_assoc_put_entries(s.skip(1), id, val);
        let r = seq![s[0]] + spec_assoc_put(s.skip(1), id, val);
        assert forall|k: int| 0 <= k < r.len() implies r[k] == (id, val) || (exists|j: int|
            0 <= j < s.len() && s[j] == #[trigger] r[k]) by {
            if k == 0 {
                assert(s[0] == r[0]);
            } else {
                assert(r[k] == spec_assoc_put(s.skip(1), id, val)[k - 1]);
                if r[k] != (id, val) {
                    let j = choose|j: int| 0 <= j < s.skip(1).len() && s.skip(1)[j] == r[k];
                    assert(s[j + 1] == r[k]);
                }
            }
        }
    }
}

/// No two entries share a key.
pub open spec fn keys_unique<V>(s: Seq<(i32, V)>) -> bool {
    forall|i: int, j: int| 0 <= i < j < s.len() ==> (#[trigger] s[i]).0 != (#[trigger] s[j]).0
}

/// After a put, the key reads back as the bound value and every other key
/// reads as before.
pub proof fn lemma_assoc_put_find<V>(s: Seq<(i32, V)>, id: i32, val: V, id2: i32)
    ensures
        find_assoc(spec_assoc_put(s, id, val), id) == Some(val),
        id2 != id ==> find_assoc(spec_assoc_put(s, id, val), id2) == find_assoc(s, id2),
    decreases s.len(),
{
    if s.len() == 0 {
        assert(spec_assoc_put(s, id, val).skip(1) =~= s);
    } else if s[0].0 == id {
        assert(s.update(0, (id, val)).skip(1) =~= s.skip(1));
    } else {
        lemma_assoc_put_find(s.skip(1), id, val, id2);
        let r = seq![s[0]] + spec_assoc_put(s.skip(1), id, val);
        assert(r.skip(1) =~= spec_assoc_put(s.skip(1), id, val));
    }
}

/// A put never introduces a duplicate key.
pub proof fn lemma_assoc_put_unique<V>(s: Seq<(i32, V)>, id: i32, val: V)
    requires
        keys_unique(s),
    ensures
        keys_unique(spec_assoc_put(s, id, val)),
    decreases s.len(),
{
    if s.len() == 0 {
    } else if s[0].0 == id {
    } else {
        assert(keys_unique(s.skip(1))) by {
            assert forall|i: int, j: int| 0 <= i < j < s.skip(1).len() implies (#[trigger] s.skip(
                1,
            )[i]).0 != (#[trigger] s.skip(1)[j]).0 by {
                assert(s.skip(1)[i] == s[i + 1] && s.skip(1)[j] == s[j + 1]);
            }
        }
        lemma_assoc_put_unique(s.skip(1), id, val);
        lemma_assoc_put_keys(s.skip(1), id, val);
        let r = seq![s[0]] + spec_assoc_put(s.skip(1), id, val);
        assert forall|i: int, j: int| 0 <= i < j < r.len() implies (#[trigger] r[i]).0 != (
        #[trigger] r[j]).0 by {
            if i == 0 {
                assert(r[j] == spec_assoc_put(s.skip(1), id, val)[j - 1]);
                if r[j].0 != id {
                    let k = choose|k: int| 0 <= k < s.skip(1).len() && s.skip(1)[k].0 == r[j].0;
                    assert(s[k + 1].0 == r[j].0);
                }
            } else {
                assert(r[i] == spec_assoc_put(s.skip(1), id, val)[i - 1]);
                assert(r[j] == spec_assoc_put(s.skip(1), id, val)[j - 1]);
            }
        }
    }
}

/// Every key of a put result is the new key or one of the old keys.
pub proof fn lemma_assoc_put_keys<V>(s: Seq<(i32, V)>, id: i32, val: V)
    ensures
        forall|k: int| 0 <= k < spec_assoc_put(s, id, val).len() ==> (#[trigger] spec_assoc_put(
            s, id, val,
        )[k]).0 == id || (exists|j: int| 0 <= j < s.len() && s[j].0 == spec_assoc_put(
            s, id, val,
        )[k].0),
    decreases s.len(),
{
    if s.len() == 0 {
    } else if s[0].0 == id {
    } else {
        lemma_assoc_put_keys(s.skip(1), id, val);
        let r = seq![s[0]] + spec_assoc_put(s.skip(1), id, val);
        assert forall|k: int| 0 <= k < r.len() implies (#[trigger] r[k]).0 == id || (exists|
        j: int| 0 <= j < s.len() && s[j].0 == r[k].0) by {
            if k == 0 {
                assert(s[0].0 == r[0].0);
            } else {
                assert(r[k] == spec_assoc_put(s.skip(1), id, val)[k - 1]);
                if r[k].0 != id {
                    let j = choose|j: int| 0 <= j < s.skip(1).len() && s.skip(1)[j].0 == r[k].0;
                    assert(s[j + 1].0 == r[k].0);
                }
            }
        }
    }
}

/// In a uniquely keyed store, any entry carrying a key is what the scan
/// finds for it.
pub proof fn lemma_assoc_find_unique<V>(s: Seq<(i32, V)>, i: int)
    requires
        keys_unique(s),
        0 <= i < s.len(),
    ensures
        find_assoc(s, s[i].0) == Some(s[i].1),
{
    assert forall|j: int| 0 <= j < i implies s[j].0 != s[i].0 by {}
    lemma_assoc_hit(s, s[i].0, i);
}

/// Dropping the last entry leaves every other key's scan unchanged.
pub proof fn lemma_assoc_drop_last<V>(s: Seq<(i32, V)>, id2: i32)
    requires
        s.len() > 0,
        s.last().0 != id2,
    ensures
        find_assoc(s.drop_last(), id2) == find_assoc(s, id2),
    decreases s.len(),
{
    if s.len() == 1 {
        assert(s.drop_last() =~= Seq::<(i32, V)>::empty());
    } else if s[0].0 == id2 {
        assert(s.drop_last().len() == s.len() - 1);
        assert(s.drop_last()[0] == s[0]);
        assert(find_assoc(s.drop_last(), id2) == Some(s.drop_last()[0].1));
        assert(find_assoc(s, id2) == Some(s[0].1));
    } else {
        assert(s.skip(1).last() == s.last());
        lemma_assoc_drop_last(s.skip(1), id2);
        assert(s.drop_last().skip(1) =~= s.skip(1).drop_last());
        assert(s.drop_last().len() == s.len() - 1);
        assert(s.drop_last()[0] == s[0]);
        assert(find_assoc(s.drop_last(), id2) == find_assoc(s.drop_last().skip(1), id2));
        assert(find_assoc(s, id2) == find_assoc(s.skip(1), id2));
    }
}

/// What a scan finds is one of the entries.
pub proof fn lemma_find_assoc_in<V>(s: Seq<(i32, V)>, id: i32)
    ensures
        find_assoc(s, id) matches Some(w) ==> exists|j: int| 0 <= j < s.len() && #[trigger] s[j]
            == (id, w),
    decreases s.len(),
{
    if s.len() > 0 && s[0].0 != id {
        lemma_find_assoc_in(s.skip(1), id);
        if find_assoc(s, id) is Some {
            let w = find_assoc(s, id)->0;
            let j = choose|j: int| 0 <= j < s.skip(1).len() && #[trigger] s.skip(1)[j] == (id, w);
            assert(s[j + 1] == (id, w));
        }
    }
}

/// Look a window up by its id, scanning first match.
pub fn assoc_get<V>(v: &Vec<(i32, V)>, id: i32) -> (r: Option<&V>)
    ensures
        r is Some <==> find_assoc(v@, id) is Some,
        (r matches Some(x) ==> find_assoc(v@, id) == Some(*x) && exists|j: int|
            0 <= j < v@.len() && v@[j].0 == id && v@[j].1 == *x),
{
    let mut i: usize = 0;
    while i < v.len()
        invariant
            0 <= i <= v@.len(),
            forall|j: int| 0 <= j < i as int ==> v@[j].0 != id,
        decreases v@.len() - i as int,
    {
        let pair = &v[i];
        if pair.0 == id {
            proof { lemma_assoc_hit(v@, id, i as int); }
            return Some(&pair.1);
        }
        i = i + 1;
    }
    proof { lemma_assoc_miss(v@, id); }
    None
}

/// Bind a window id to a value, replacing any earlier binding.
pub fn assoc_put<V>(v: &mut Vec<(i32, V)>, id: i32, val: V)
    ensures
        final(v)@ == spec_assoc_put(old(v)@, id, val),
{
    let ghost s0 = v@;
    let len = v.len();
    let mut i: usize = 0;
    while i < len
        invariant
            0 <= i <= len,
            len == s0.len(),
            s0 == old(v)@,
            v@ == s0,
            forall|j: int| 0 <= j < i as int ==> s0[j].0 != id,
        decreases len - i,
    {
        if v[i].0 == id {
            proof { lemma_assoc_put_at(s0, id, val, i as int); }
            v.set(i, (id, val));
            return;
        }
        i = i + 1;
    }
    proof { lemma_assoc_put_at(s0, id, val, len as int); }
    v.push((id, val));
}

/// The position stored under a key, scanning first match.
pub open spec fn find_position(s: Seq<(PositionKey, Position)>, key: PositionKey)
    -> Option<Position>
    decreases s.len(),
{
    if s.len() == 0 {
        None
    } else if s[0].0 == key {
        Some(s[0].1)
    } else {
        find_position(s.skip(1), key)
    }
}

/// The position store after binding `key` to `val`.
pub open spec fn spec_position_put(s: Seq<(PositionKey, Position)>, key: PositionKey,
    val: Position) -> Seq<(PositionKey, Position)>
    decreases s.len(),
{
    if s.len() == 0 {
        seq![(key, val)]
    } else if s[0].0 == key {
        s.update(0, (key, val))
    } else {
        seq![s[0]] + spec_position_put(s.skip(1), key, val)
    }
}

/// A scan that hits `key` at `i` past misses finds `s[i]`.
proof fn lemma_position_hit(s: Seq<(PositionKey, Position)>, key: PositionKey, i: int)
    requires
        0 <= i < s.len(),
        s[i].0 == key,
        forall|j: int| 0 <= j < i ==> s[j].0 != key,
    ensures
        find_position(s, key) == Some(s[i].1),
    decreases i,
{
    if i > 0 {
        lemma_position_hit(s.skip(1), key, i - 1);
    }
}

/// A scan that misses everywhere finds nothing.
proof fn lemma_position_miss(s: Seq<(PositionKey, Position)>, key: PositionKey)
    requires
        forall|j: int| 0 <= j < s.len() ==> s[j].0 != key,
    ensures
        find_position(s, key) is None,
    decreases s.len(),
{
    if s.len() > 0 {
        lemma_position_miss(s.skip(1), key);
    }
}

/// Where the scan's first match at `i` is, the put acts there.
proof fn lemma_position_put_at(s: Seq<(PositionKey, Position)>, key: PositionKey, val: Position,
    i: int)
    requires
        0 <= i <= s.len(),
        forall|j: int| 0 <= j < i ==> s[j].0 != key,
        i < s.len() ==> s[i].0 == key,
    ensures
        i == s.len() ==> spec_position_put(s, key, val) == s.push((key, val)),
        i < s.len() ==> spec_position_put(s, key, val) == s.update(i, (key, val)),
    decreases i,
{
    if i == 0 {
        if s.len() == 0 {
            assert(spec_position_put(s, key, val) =~= s.push((key, val)));
        }
    } else {
        lemma_position_put_at(s.skip(1), key, val, i - 1);
        if i == s.len() {
            assert(spec_position_put(s, key, val) =~= s.push((key, val)));
        } else {
            assert(spec_position_put(s, key, val) =~= s.update(i, (key, val)));
        }
    }
}

/// Every entry of a put result is the new binding or one of the old entries.
pub proof fn lemma_position_put_entries(s: Seq<(PositionKey, Position)>, key: PositionKey,
    val: Position)
    ensures
        forall|k: int| 0 <= k < spec_position_put(s, key, val).len() ==> spec_position_put(
            s, key, val,
        )[k] == (key, val) || (exists|j: int| 0 <= j < s.len() && s[j]
            == #[trigger] spec_position_put(s, key, val)[k]),
    decreases s.len(),
{
    if s.len() == 0 {
    } else if s[0].0 == key {
    } else {
        lemma_position_put_entries(s.skip(1), key, val);
        let r = seq![s[0]] + spec_position_put(s.skip(1), key, val);
        assert forall|k: int| 0 <= k < r.len() implies r[k] == (key, val) || (exists|j: int|
            0 <= j < s.len() && s[j] == #[trigger] r[k]) by {
            if k == 0 {
                assert(s[0] == r[0]);
            } else {
                assert(r[k] == spec_position_put(s.skip(1), key, val)[k - 1]);
                if r[k] != (key, val) {
                    let j = choose|j: int| 0 <= j < s.skip(1).len() && s.skip(1)[j] == r[k];
                    assert(s[j + 1] == r[k]);
                }
            }
        }
    }
}

/// After a put, the key reads back as the bound value and every other key
/// reads as before.
pub proof fn lemma_position_put_find(s: Seq<(PositionKey, Position)>, key: PositionKey,
    val: Position, key2: PositionKey)
    ensures
        find_position(spec_position_put(s, key, val), key) == Some(val),
        key2 != key ==> find_position(spec_position_put(s, key, val), key2) == find_position(
            s, key2,
        ),
    decreases s.len(),
{
    if s.len() == 0 {
        assert(spec_position_put(s, key, val).skip(1) =~= s);
    } else if s[0].0 == key {
        assert(s.update(0, (key, val)).skip(1) =~= s.skip(1));
    } else {
        lemma_position_put_find(s.skip(1), key, val, key2);
        let r = seq![s[0]] + spec_position_put(s.skip(1), key, val);
        assert(r.skip(1) =~= spec_position_put(s.skip(1), key, val));
    }
}

/// Look a position up by its key, scanning first match.
pub fn position_get(v: &Vec<(PositionKey, Position)>, key: PositionKey) -> (r: Option<&Position>)
    ensures
        r is Some <==> find_position(v@, key) is Some,
        (r matches Some(x) ==> find_position(v@, key) == Some(*x) && exists|j: int|
            0 <= j < v@.len() && v@[j].0 == key && v@[j].1 == *x),
{
    let mut i: usize = 0;
    while i < v.len()
        invariant
            0 <= i <= v@.len(),
            forall|j: int| 0 <= j < i as int ==> v@[j].0 != key,
        decreases v@.len() - i as int,
    {
        let pair = &v[i];
        if pair.0 == key {
            proof { lemma_position_hit(v@, key, i as int); }
            return Some(&pair.1);
        }
        i = i + 1;
    }
    proof { lemma_position_miss(v@, key); }
    None
}

/// Bind a position key to a value, replacing any earlier binding.
pub fn position_put(v: &mut Vec<(PositionKey, Position)>, key: PositionKey, val: Position)
    ensures
        final(v)@ == spec_position_put(old(v)@, key, val),
{
    let ghost s0 = v@;
    let len = v.len();
    let mut i: usize = 0;
    while i < len
        invariant
            0 <= i <= len,
            len == s0.len(),
            s0 == old(v)@,
            v@ == s0,
            forall|j: int| 0 <= j < i as int ==> s0[j].0 != key,
        decreases len - i,
    {
        if v[i].0 == key {
            proof { lemma_position_put_at(s0, key, val, i as int); }
            v.set(i, (key, val));
            return;
        }
        i = i + 1;
    }
    proof { lemma_position_put_at(s0, key, val, len as int); }
    v.push((key, val));
}

/// Encode a window of share records into raw share counts.
pub fn shares_vec_to_raw(vec: &Vec<BinShares>) -> (r: Vec<i128>)
    requires
        vec@.len() == BIN_VEC_SIZE as int,
    ensures
        r@.len() == BIN_VEC_SIZE as int,
        forall|i: int| 0 <= i < BIN_VEC_SIZE as int ==> r@[i] == vec@[i].shares,
{
    let mut r: Vec<i128> = Vec::new();
    let mut i: usize = 0;
    while i < BIN_VEC_SIZE as usize
        invariant
            0 <= i <= BIN_VEC_SIZE as int,
            vec@.len() == BIN_VEC_SIZE as int,
            r@.len() == i as int,
            forall|j: int| 0 <= j < i as int ==> r@[j] == vec@[j].shares,
        decreases BIN_VEC_SIZE as int - i as int,
    {
        r.push(vec[i].shares);
        i = i + 1;
    }
    r
}

} // verus!

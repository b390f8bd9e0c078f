//! Window and position helpers.
//!
//! A window (bin vector) is a `Vec` of `BIN_VEC_SIZE` consecutive entries;
//! a bin's slot inside it is its id modulo the window size. A position is a
//! strictly ascending list of share records, kept ordered by first-fit
//! insertion and pruned on removal.

use vstd::prelude::*;
use vstd::arithmetic::div_mod::{lemma_fundamental_div_mod, lemma_fundamental_div_mod_converse};
use crate::constants::BIN_VEC_SIZE;
use crate::storage::{
    Bin, BinShares, Position, spec_vec_id_for_bin, spec_bin_slot, shares_sorted,
    get_vec_id_for_bin,
};

verus! {

/// Whether a bin falls inside a given window.
pub fn is_bin_in_vec(bin_id: i32, vec_id: i32) -> (r: bool)
    ensures
        r == (spec_vec_id_for_bin(bin_id as int) == vec_id as int),
{
    get_vec_id_for_bin(bin_id) == vec_id
}

/// The slot a bin occupies inside its window.
pub fn get_bin_position_in_vec(bin_id: i32) -> (r: u32)
    ensures
        r as int == spec_bin_slot(bin_id as int),
        r < BIN_VEC_SIZE as u32,
{
    if bin_id >= 0 {
        bin_id as u32 % 32
    } else {
        let m: u32 = (-(bin_id as i64)) as u32;
        let q: u32 = m / 32;
        let s: u32 = m % 32;
        proof {
            lemma_fundamental_div_mod(m as int, 32);
            if s == 0 {
                lemma_fundamental_div_mod_converse(bin_id as int, 32, -(q as int), 0);
            } else {
                lemma_fundamental_div_mod_converse(
                    bin_id as int, 32, -(q as int) - 1, 32 - s as int,
                );
            }
        }
        if s == 0 {
            0
        } else {
            32 - s
        }
    }
}

/// A fresh window for `vec_id`: every slot carries its derived bin id and
/// zero reserves.
pub fn default_bin_vec(vec_id: i32) -> (r: Vec<Bin>)
    requires
        i32::MIN <= (vec_id as int) * (BIN_VEC_SIZE as int),
        (vec_id as int) * (BIN_VEC_SIZE as int) + BIN_VEC_SIZE as int - 1 <= i32::MAX,
    ensures
        r@.len() == BIN_VEC_SIZE as int,
        forall|i: int| 0 <= i < BIN_VEC_SIZE as int ==> r@[i] == (Bin {
            bin_id: ((vec_id as int) * (BIN_VEC_SIZE as int) + i) as i32,
            reserve_x: 0,
            reserve_y: 0,
        }),
{
    let first = vec_id * BIN_VEC_SIZE;
    let mut r: Vec<Bin> = Vec::new();
    let mut i: usize = 0;
    while i < BIN_VEC_SIZE as usize
        invariant
            0 <= i <= BIN_VEC_SIZE as int,
            first as int == (vec_id as int) * (BIN_VEC_SIZE as int),
            first as int + BIN_VEC_SIZE as int - 1 <= i32::MAX,
            r@.len() == i as int,
            forall|j: int| 0 <= j < i as int ==> r@[j] == (Bin {
                bin_id: ((vec_id as int) * (BIN_VEC_SIZE as int) + j) as i32,
                reserve_x: 0,
                reserve_y: 0,
            }),
        decreases BIN_VEC_SIZE as int - i as int,
    {
        r.push(Bin { bin_id: first + i as i32, reserve_x: 0, reserve_y: 0 });
        i = i + 1;
    }
    r
}

/// A fresh share window for `vec_id`: every slot carries its derived bin id
/// and zero shares.
pub fn default_shares_vec(vec_id: i32) -> (r: Vec<BinShares>)
    requires
        i32::MIN <= (vec_id as int) * (BIN_VEC_SIZE as int),
        (vec_id as int) * (BIN_VEC_SIZE as int) + BIN_VEC_SIZE as int - 1 <= i32::MAX,
    ensures
        r@.len() == BIN_VEC_SIZE as int,
        forall|i: int| 0 <= i < BIN_VEC_SIZE as int ==> r@[i] == (BinShares {
            bin_id: ((vec_id as int) * (BIN_VEC_SIZE as int) + i) as i32,
            shares: 0,
        }),
{
    let first = vec_id * BIN_VEC_SIZE;
    let mut r: Vec<BinShares> = Vec::new();
    let mut i: usize = 0;
    while i < BIN_VEC_SIZE as usize
        invariant
            0 <= i <= BIN_VEC_SIZE as int,
            first as int == (vec_id as int) * (BIN_VEC_SIZE as int),
            first as int + BIN_VEC_SIZE as int - 1 <= i32::MAX,
            r@.len() == i as int,
            forall|j: int| 0 <= j < i as int ==> r@[j] == (BinShares {
                bin_id: ((vec_id as int) * (BIN_VEC_SIZE as int) + j) as i32,
                shares: 0,
            }),
        decreases BIN_VEC_SIZE as int - i as int,
    {
        r.push(BinShares { bin_id: first + i as i32, shares: 0 });
        i = i + 1;
    }
    r
}

/// Read a window entry at the slot of `bin_id`.
pub fn get_bin_from_vec<T: Copy>(vec: &Vec<T>, bin_id: i32) -> (r: T)
    requires
        vec@.len() == BIN_VEC_SIZE as int,
    ensures
        r == vec@[spec_bin_slot(bin_id as int)],
{
    let slot = get_bin_position_in_vec(bin_id);
    vec[slot as usize]
}

/// Replace a window entry at the slot of `bin_id`.
pub fn store_bin_in_vec<T: Copy>(vec: &mut Vec<T>, bin_id: i32, bin: T)
    requires
        old(vec)@.len() == BIN_VEC_SIZE as int,
    ensures
        final(vec)@ == old(vec)@.update(spec_bin_slot(bin_id as int), bin),
{
    let slot = get_bin_position_in_vec(bin_id);
    vec.set(slot as usize, bin);
}

/// Whether no slot of a window holds any deposit.
pub fn is_bin_vec_empty(vec: &Vec<Bin>) -> (r: bool)
    ensures
        r == (forall|i: int|
            0 <= i < vec@.len() ==> vec@[i].reserve_x == 0 && vec@[i].reserve_y == 0),
{
    let mut i: usize = 0;
    while i < vec.len()
        invariant
            0 <= i <= vec@.len(),
            forall|j: int| 0 <= j < i as int ==> vec@[j].reserve_x == 0 && vec@[j].reserve_y == 0,
        decreases vec@.len() - i as int,
    {
        if vec[i].reserve_x != 0 || vec[i].reserve_y != 0 {
            return false;
        }
        i = i + 1;
    }
    true
}

/// The first record for `bin_id` in a list, or an empty record for that bin.
pub open spec fn spec_find_shares(s: Seq<BinShares>, bin_id: i32) -> BinShares
    decreases s.len(),
{
    if s.len() == 0 {
        BinShares { bin_id: bin_id, shares: 0 }
    } else if s[0].bin_id == bin_id {
        s[0]
    } else {
        spec_find_shares(s.skip(1), bin_id)
    }
}

/// The list after replacing the record for `e.bin_id`, or inserting `e`
/// before the first larger id, keeping ascending order.
pub open spec fn spec_upsert(s: Seq<BinShares>, e: BinShares) -> Seq<BinShares>
    decreases s.len(),
{
    if s.len() == 0 {
        seq![e]
    } else if s[0].bin_id == e.bin_id {
        s.update(0, e)
    } else if s[0].bin_id > e.bin_id {
        seq![e] + s
    } else {
        seq![s[0]] + spec_upsert(s.skip(1), e)
    }
}

/// The list after removing the first record for `bin_id`, if any.
pub open spec fn spec_delete(s: Seq<BinShares>, bin_id: i32) -> Seq<BinShares>
    decreases s.len(),
{
    if s.len() == 0 {
        s
    } else if s[0].bin_id == bin_id {
        s.skip(1)
    } else {
        seq![s[0]] + spec_delete(s.skip(1), bin_id)
    }
}

/// A scan that hits `bin_id` at `i` past smaller misses finds `s[i]`.
proof fn lemma_find_hit(s: Seq<BinShares>, bin_id: i32, i: int)
    requires
        0 <= i < s.len(),
        s[i].bin_id == bin_id,
        forall|j: int| 0 <= j < i ==> s[j].bin_id != bin_id,
    ensures
        spec_find_shares(s, bin_id) == s[i],
    decreases i,
{
    if i > 0 {
        lemma_find_hit(s.skip(1), bin_id, i - 1);
    }
}

/// A scan that misses everywhere yields the empty record.
proof fn lemma_find_miss(s: Seq<BinShares>, bin_id: i32)
    requires
        forall|j: int| 0 <= j < s.len() ==> s[j].bin_id != bin_id,
    ensures
        spec_find_shares(s, bin_id) == (BinShares { bin_id: bin_id, shares: 0 }),
    decreases s.len(),
{
    if s.len() > 0 {
        lemma_find_miss(s.skip(1), bin_id);
    }
}

/// Read the share record of one bin out of a position; absent bins read as
/// zero shares and the position is untouched.
pub fn get_shares_from_position(position: &Position, bin_id: i32) -> (r: BinShares)
    ensures
        r == spec_find_shares(position.bin_shares@, bin_id),
{
    let s = &position.bin_shares;
    let mut i: usize = 0;
    while i < s.len()
        invariant
            0 <= i <= s@.len(),
            s@ == position.bin_shares@,
            forall|j: int| 0 <= j < i as int ==> s@[j].bin_id != bin_id,
        decreases s@.len() - i as int,
    {
        if s[i].bin_id == bin_id {
            proof { lemma_find_hit(s@, bin_id, i as int); }
            return s[i];
        }
        i = i + 1;
    }
    proof { lemma_find_miss(s@, bin_id); }
    BinShares { bin_id, shares: 0 }
}

/// Where the scan's first stop at `i` is, the upsert acts there.
proof fn lemma_upsert_at(s: Seq<BinShares>, e: BinShares, i: int)
    requires
        0 <= i <= s.len(),
        forall|j: int| 0 <= j < i ==> s[j].bin_id < e.bin_id,
        i < s.len() ==> s[i].bin_id >= e.bin_id,
    ensures
        i == s.len() ==> spec_upsert(s, e) == s.push(e),
        i < s.len() && s[i].bin_id == e.bin_id ==> spec_upsert(s, e) == s.update(i, e),
        i < s.len() && s[i].bin_id > e.bin_id ==> spec_upsert(s, e) == s.insert(i, e),
    decreases i,
{
    if i == 0 {
        if s.len() == 0 {
            assert(spec_upsert(s, e) =~= s.push(e));
        } else if s[0].bin_id == e.bin_id {
        } else if s[0].bin_id > e.bin_id {
            assert(spec_upsert(s, e) =~= s.insert(0, e));
        }
    } else {
        lemma_upsert_at(s.skip(1), e, i - 1);
        if i == s.len() {
            assert(spec_upsert(s, e) =~= s.push(e));
        } else if s[i].bin_id == e.bin_id {
            assert(spec_upsert(s, e) =~= s.update(i, e));
        } else if s[i].bin_id > e.bin_id {
            assert(spec_upsert(s, e) =~= s.insert(i, e));
        }
    }
}

/// Law: an upsert keeps a position's records strictly ascending.
pub proof fn lemma_upsert_sorted(s: Seq<BinShares>, e: BinShares)
    requires
        shares_sorted(s),
    ensures
        shares_sorted(spec_upsert(s, e)),
    decreases s.len(),
{
    if s.len() == 0 {
    } else if s[0].bin_id == e.bin_id {
    } else if s[0].bin_id > e.bin_id {
    } else {
        assert(shares_sorted(s.skip(1)));
        lemma_upsert_sorted(s.skip(1), e);
        lemma_upsert_ids(s.skip(1), e);
        let r = seq![s[0]] + spec_upsert(s.skip(1), e);
        assert forall|a: int, b: int| 0 <= a < b < r.len() implies r[a].bin_id < r[b].bin_id by {
            if a > 0 {
                assert(r[a] == spec_upsert(s.skip(1), e)[a - 1]);
                assert(r[b] == spec_upsert(s.skip(1), e)[b - 1]);
            }
        }
    }
}

/// Every id in an upsert result comes from the list or the new record.
proof fn lemma_upsert_ids(s: Seq<BinShares>, e: BinShares)
    ensures
        forall|k: int| 0 <= k < spec_upsert(s, e).len() ==> spec_upsert(s, e)[k].bin_id
            == e.bin_id || (exists|j: int| 0 <= j < s.len() && s[j].bin_id
            == #[trigger] spec_upsert(s, e)[k].bin_id),
    decreases s.len(),
{
    if s.len() == 0 {
    } else if s[0].bin_id == e.bin_id {
    } else if s[0].bin_id > e.bin_id {
    } else {
        lemma_upsert_ids(s.skip(1), e);
        let r = seq![s[0]] + spec_upsert(s.skip(1), e);
        assert forall|k: int| 0 <= k < r.len() implies r[k].bin_id == e.bin_id || (exists|j: int|
            0 <= j < s.len() && s[j].bin_id == #[trigger] r[k].bin_id) by {
            if k > 0 {
                assert(r[k] == spec_upsert(s.skip(1), e)[k - 1]);
                if r[k].bin_id != e.bin_id {
                    let j = choose|j: int| 0 <= j < s.skip(1).len() && s.skip(1)[j].bin_id
                        == r[k].bin_id;
                    assert(s[j + 1].bin_id == r[k].bin_id);
                }
            } else {
                assert(s[0].bin_id == r[0].bin_id);
            }
        }
    }
}

/// What a lookup hands back is keyed by the requested bin, and is
/// nonnegative whenever the list is.
pub proof fn lemma_find_shares_props(s: Seq<BinShares>, bin_id: i32)
    ensures
        spec_find_shares(s, bin_id).bin_id == bin_id,
        crate::storage::shares_nonneg(s) ==> spec_find_shares(s, bin_id).shares >= 0,
    decreases s.len(),
{
    if s.len() > 0 && s[0].bin_id != bin_id {
        lemma_find_shares_props(s.skip(1), bin_id);
        if crate::storage::shares_nonneg(s) {
            assert forall|j: int| 0 <= j < s.skip(1).len() implies (#[trigger] s.skip(1)[j]).shares
                >= 0 by {
                assert(s.skip(1)[j] == s[j + 1]);
            }
        }
    }
}

/// Every record of an upsert result is the new record or one of the old.
pub proof fn lemma_upsert_entries(s: Seq<BinShares>, e: BinShares)
    ensures
        forall|k: int| 0 <= k < spec_upsert(s, e).len() ==> spec_upsert(s, e)[k] == e || (
        exists|j: int| 0 <= j < s.len() && s[j] == #[trigger] spec_upsert(s, e)[k]),
    decreases s.len(),
{
    if s.len() == 0 {
    } else if s[0].bin_id == e.bin_id {
    } else if s[0].bin_id > e.bin_id {
    } else {
        lemma_upsert_entries(s.skip(1), e);
        let r = seq![s[0]] + spec_upsert(s.skip(1), e);
        assert forall|k: int| 0 <= k < r.len() implies r[k] == e || (exists|j: int|
            0 <= j < s.len() && s[j] == #[trigger] r[k]) by {
            if k > 0 {
                assert(r[k] == spec_upsert(s.skip(1), e)[k - 1]);
                if r[k] != e {
                    let j = choose|j: int| 0 <= j < s.skip(1).len() && s.skip(1)[j] == r[k];
                    assert(s[j + 1] == r[k]);
                }
            } else {
                assert(s[0] == r[0]);
            }
        }
    }
}

/// Every record of a delete result is one of the old records.
pub proof fn lemma_delete_entries(s: Seq<BinShares>, bin_id: i32)
    ensures
        forall|k: int| 0 <= k < spec_delete(s, bin_id).len() ==> exists|j: int|
            0 <= j < s.len() && s[j] == #[trigger] spec_delete(s, bin_id)[k],
    decreases s.len(),
{
    if s.len() == 0 {
    } else if s[0].bin_id == bin_id {
        assert forall|k: int| 0 <= k < s.skip(1).len() implies exists|j: int|
            0 <= j < s.len() && s[j] == #[trigger] s.skip(1)[k] by {
            assert(s[k + 1] == s.skip(1)[k]);
        }
    } else {
        lemma_delete_entries(s.skip(1), bin_id);
        let r = seq![s[0]] + spec_delete(s.skip(1), bin_id);
        assert forall|k: int| 0 <= k < r.len() implies exists|j: int| 0 <= j < s.len() && s[j]
            == #[trigger] r[k] by {
            if k > 0 {
                assert(r[k] == spec_delete(s.skip(1), bin_id)[k - 1]);
                let j = choose|j: int| 0 <= j < s.skip(1).len() && s.skip(1)[j] == r[k];
                assert(s[j + 1] == r[k]);
            } else {
                assert(s[0] == r[0]);
            }
        }
    }
}

/// Law: after an upsert, looking the record's bin up finds exactly the new
/// record, and every other bin reads as before.
pub proof fn lemma_upsert_find(s: Seq<BinShares>, e: BinShares, q: i32)
    requires
        shares_sorted(s),
    ensures
        spec_find_shares(spec_upsert(s, e), e.bin_id) == e,
        q != e.bin_id ==> spec_find_shares(spec_upsert(s, e), q) == spec_find_shares(s, q),
    decreases s.len(),
{
    if s.len() == 0 {
        assert(spec_upsert(s, e).skip(1) =~= s);
    } else if s[0].bin_id == e.bin_id {
        assert(s.update(0, e).skip(1) =~= s.skip(1));
    } else if s[0].bin_id > e.bin_id {
        assert((seq![e] + s).skip(1) =~= s);
    } else {
        assert(shares_sorted(s.skip(1)));
        lemma_upsert_find(s.skip(1), e, q);
        let r = seq![s[0]] + spec_upsert(s.skip(1), e);
        assert(r.skip(1) =~= spec_upsert(s.skip(1), e));
    }
}

/// Law: after a delete, the removed bin reads as empty and every other bin
/// reads as before, provided the records were strictly ascending.
pub proof fn lemma_delete_find(s: Seq<BinShares>, bin_id: i32, q: i32)
    requires
        shares_sorted(s),
    ensures
        spec_find_shares(spec_delete(s, bin_id), bin_id) == (BinShares {
            bin_id: bin_id,
            shares: 0,
        }),
        q != bin_id ==> spec_find_shares(spec_delete(s, bin_id), q) == spec_find_shares(s, q),
    decreases s.len(),
{
    if s.len() == 0 {
    } else if s[0].bin_id == bin_id {
        // strict order: no later record carries the deleted bin
        assert forall|j: int| 0 <= j < s.skip(1).len() implies (#[trigger] s.skip(1)[j]).bin_id
            != bin_id by {
            assert(s.skip(1)[j] == s[j + 1]);
            assert(s[0].bin_id < s[j + 1].bin_id);
        }
        lemma_find_miss(s.skip(1), bin_id);
    } else {
        assert(shares_sorted(s.skip(1)));
        lemma_delete_find(s.skip(1), bin_id, q);
        let r = seq![s[0]] + spec_delete(s.skip(1), bin_id);
        assert(r.skip(1) =~= spec_delete(s.skip(1), bin_id));
    }
}

/// Insert or replace one record, keeping the position's ascending order.
pub fn store_shares_in_position(position: &mut Position, bin_shares: BinShares)
    ensures
        final(position).bin_shares@ == spec_upsert(old(position).bin_shares@, bin_shares),
{
    let ghost s0 = position.bin_shares@;
    let len = position.bin_shares.len();
    let mut i: usize = 0;
    while i < len
        invariant
            0 <= i <= len,
            len == s0.len(),
            s0 == old(position).bin_shares@,
            position.bin_shares@ == s0,
            forall|j: int| 0 <= j < i as int ==> s0[j].bin_id < bin_shares.bin_id,
        decreases len - i,
    {
        if position.bin_shares[i].bin_id >= bin_shares.bin_id {
            proof { lemma_upsert_at(s0, bin_shares, i as int); }
            if position.bin_shares[i].bin_id == bin_shares.bin_id {
                position.bin_shares.set(i, bin_shares);
            } else {
                position.bin_shares.insert(i, bin_shares);
            }
            return;
        }
        i = i + 1;
    }
    proof { lemma_upsert_at(s0, bin_shares, len as int); }
    position.bin_shares.push(bin_shares);
}

/// Where the scan's first match at `i` is, the delete removes it.
proof fn lemma_delete_at(s: Seq<BinShares>, bin_id: i32, i: int)
    requires
        0 <= i <= s.len(),
        forall|j: int| 0 <= j < i ==> s[j].bin_id != bin_id,
        i < s.len() ==> s[i].bin_id == bin_id,
    ensures
        i == s.len() ==> spec_delete(s, bin_id) == s,
        i < s.len() ==> spec_delete(s, bin_id) == s.remove(i),
    decreases i,
{
    if i == 0 {
        if s.len() > 0 {
            assert(s.skip(1) =~= s.remove(0));
        }
    } else {
        lemma_delete_at(s.skip(1), bin_id, i - 1);
        if i == s.len() {
            assert(spec_delete(s, bin_id) =~= s);
        } else {
            assert(spec_delete(s, bin_id) =~= s.remove(i));
        }
    }
}

/// Law: a delete keeps a position's records strictly ascending.
pub proof fn lemma_delete_sorted(s: Seq<BinShares>, bin_id: i32)
    requires
        shares_sorted(s),
    ensures
        shares_sorted(spec_delete(s, bin_id)),
{
    if s.len() > 0 {
        // the delete result is either `s` or `s.remove(i)` for a first match
        if exists|j: int| 0 <= j < s.len() && s[j].bin_id == bin_id {
            let j0 = choose|j: int| 0 <= j < s.len() && s[j].bin_id == bin_id;
            // strict order makes the match unique, so it is also the first
            assert forall|a: int, b: int| 0 <= a < s.len() && 0 <= b < s.len() && s[a].bin_id
                == bin_id && s[b].bin_id == bin_id implies a == b by {
                if a < b {
                    assert(s[a].bin_id < s[b].bin_id);
                }
                if b < a {
                    assert(s[b].bin_id < s[a].bin_id);
                }
            }
            assert(forall|j: int| 0 <= j < j0 ==> s[j].bin_id != bin_id);
            lemma_delete_at(s, bin_id, j0);
            assert(shares_sorted(s.remove(j0)));
        } else {
            lemma_delete_at(s, bin_id, s.len() as int);
        }
    }
}

/// Remove the record of one bin from a position, if present.
pub fn delete_shares_in_position(position: &mut Position, bin_shares: BinShares)
    ensures
        final(position).bin_shares@ == spec_delete(
            old(position).bin_shares@, bin_shares.bin_id,
        ),
{
    let ghost s0 = position.bin_shares@;
    let len = position.bin_shares.len();
    let mut i: usize = 0;
    while i < len
        invariant
            0 <= i <= len,
            len == s0.len(),
            s0 == old(position).bin_shares@,
            position.bin_shares@ == s0,
            forall|j: int| 0 <= j < i as int ==> s0[j].bin_id != bin_shares.bin_id,
        decreases len - i,
    {
        if position.bin_shares[i].bin_id == bin_shares.bin_id {
            proof { lemma_delete_at(s0, bin_shares.bin_id, i as int); }
            position.bin_shares.remove(i);
            return;
        }
        i = i + 1;
    }
    proof { lemma_delete_at(s0, bin_shares.bin_id, len as int); }
}

} // verus!

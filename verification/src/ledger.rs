//! The stake ledger: per-validator allocation rows plus a sorted allocation
//! index that yields descending-stake iteration.

use vstd::prelude::*;
use crate::hashing::{blake2_128, blake2_128_of};
use crate::primitives::{reverse_lexicographic_order, Validator};

verus! {

broadcast use vstd::array::group_array_axioms;

/// Strict lexicographic order on byte sequences: some position holds a
/// smaller byte while every earlier position agrees.
pub open spec fn lex_lt(a: Seq<u8>, b: Seq<u8>) -> bool {
    exists|k: int|
        0 <= k < a.len() && k < b.len() && a[k] < b[k] && (forall|j: int|
            0 <= j < k ==> a[j] == b[j])
}

/// Two unordered sequences agree from position `i` on, once they agree
/// before it.
proof fn lemma_lex_eq_from(a: Seq<u8>, b: Seq<u8>, i: int)
    requires
        a.len() == b.len(),
        0 <= i <= a.len(),
        forall|j: int| 0 <= j < i ==> a[j] == b[j],
        !lex_lt(a, b),
        !lex_lt(b, a),
    ensures
        forall|j: int| 0 <= j < a.len() ==> a[j] == b[j],
    decreases a.len() - i,
{
    if i < a.len() {
        if a[i] < b[i] {
            assert(0 <= i < a.len() && i < b.len() && a[i] < b[i] && (forall|j: int|
                0 <= j < i ==> a[j] == b[j]));
            assert(lex_lt(a, b));
        } else if b[i] < a[i] {
            assert(0 <= i < b.len() && i < a.len() && b[i] < a[i] && (forall|j: int|
                0 <= j < i ==> b[j] == a[j]));
            assert(lex_lt(b, a));
        }
        lemma_lex_eq_from(a, b, i + 1);
    }
}

/// On equal-length sequences the order is total: two unordered sequences are
/// equal.
pub proof fn lemma_lex_lt_total(a: Seq<u8>, b: Seq<u8>)
    requires
        a.len() == b.len(),
        !lex_lt(a, b),
        !lex_lt(b, a),
    ensures
        a == b,
{
    lemma_lex_eq_from(a, b, 0);
    assert(a =~= b);
}

/// The order is asymmetric.
pub proof fn lemma_lex_lt_asym(a: Seq<u8>, b: Seq<u8>)
    requires
        lex_lt(a, b),
    ensures
        !lex_lt(b, a),
{
    if lex_lt(b, a) {
        let k1 = choose|k: int|
            0 <= k < a.len() && k < b.len() && a[k] < b[k] && (forall|j: int|
                0 <= j < k ==> a[j] == b[j]);
        let k2 = choose|k: int|
            0 <= k < b.len() && k < a.len() && b[k] < a[k] && (forall|j: int|
                0 <= j < k ==> b[j] == a[j]);
        if k1 < k2 {
            assert(b[k1] == a[k1]);
        } else if k2 < k1 {
            assert(a[k2] == b[k2]);
        }
    }
}

/// The order is transitive.
pub proof fn lemma_lex_lt_trans(a: Seq<u8>, b: Seq<u8>, c: Seq<u8>)
    requires
        lex_lt(a, b),
        lex_lt(b, c),
        a.len() == b.len() == c.len(),
    ensures
        lex_lt(a, c),
{
    let k1 = choose|k: int|
        0 <= k < a.len() && k < b.len() && a[k] < b[k] && (forall|j: int|
            0 <= j < k ==> a[j] == b[j]);
    let k2 = choose|k: int|
        0 <= k < b.len() && k < c.len() && b[k] < c[k] && (forall|j: int|
            0 <= j < k ==> b[j] == c[j]);
    if k1 < k2 {
        assert(0 <= k1 < a.len() && k1 < c.len() && a[k1] < c[k1] && (forall|j: int|
            0 <= j < k1 ==> a[j] == c[j]));
    } else if k2 < k1 {
        assert(0 <= k2 < a.len() && k2 < c.len() && a[k2] < c[k2] && (forall|j: int|
            0 <= j < k2 ==> a[j] == c[j]));
    } else {
        assert(0 <= k1 < a.len() && k1 < c.len() && a[k1] < c[k1] && (forall|j: int|
            0 <= j < k1 ==> a[j] == c[j]));
    }
}

/// Compares two equal-length byte arrays lexicographically.
pub fn lex_less<const N: usize>(a: &[u8; N], b: &[u8; N]) -> (r: bool)
    ensures
        r == lex_lt(a@, b@),
{
    let mut k: usize = 0;
    while k < N
        invariant
            k <= N,
            a@.len() == N,
            b@.len() == N,
            forall|j: int| 0 <= j < k ==> a@[j] == b@[j],
        decreases N - k,
    {
        let x = a[k];
        let y = b[k];
        if x < y {
            proof {
                assert(0 <= k < a@.len() && k < b@.len() && a@[k as int] < b@[k as int] && (
                forall|j: int| 0 <= j < k ==> a@[j] == b@[j]));
            }
            return true;
        }
        if x > y {
            proof {
                if lex_lt(a@, b@) {
                    let kp = choose|kp: int|
                        0 <= kp < a@.len() && kp < b@.len() && a@[kp] < b@[kp] && (forall|j: int|
                            0 <= j < kp ==> a@[j] == b@[j]);
                    if kp < k {
                    } else if kp == k {
                    } else {
                        assert(a@[k as int] == b@[k as int]);
                    }
                }
            }
            return false;
        }
        k += 1;
    }
    proof {
        if lex_lt(a@, b@) {
            let kp = choose|kp: int|
                0 <= kp < a@.len() && kp < b@.len() && a@[kp] < b@[kp] && (forall|j: int|
                    0 <= j < kp ==> a@[j] == b@[j]);
        }
    }
    false
}

/// The big-endian bytes of a 64-bit amount.
pub open spec fn spec_be_bytes(x: u64) -> Seq<u8> {
    seq![
        ((x >> 56) & 0xff) as u8,
        ((x >> 48) & 0xff) as u8,
        ((x >> 40) & 0xff) as u8,
        ((x >> 32) & 0xff) as u8,
        ((x >> 24) & 0xff) as u8,
        ((x >> 16) & 0xff) as u8,
        ((x >> 8) & 0xff) as u8,
        (x & 0xff) as u8,
    ]
}

/// Builds the big-endian bytes of an amount.
pub fn u64_be_bytes(x: u64) -> (r: [u8; 8])
    ensures
        r@ == spec_be_bytes(x),
{
    proof {
        assert((x >> 56) & 0xff < 256 && (x >> 48) & 0xff < 256 && (x >> 40) & 0xff < 256 && (x
            >> 32) & 0xff < 256 && (x >> 24) & 0xff < 256 && (x >> 16) & 0xff < 256 && (x >> 8)
            & 0xff < 256 && x & 0xff < 256) by (bit_vector);
    }
    let r = [
        ((x >> 56) & 0xff) as u8,
        ((x >> 48) & 0xff) as u8,
        ((x >> 40) & 0xff) as u8,
        ((x >> 32) & 0xff) as u8,
        ((x >> 24) & 0xff) as u8,
        ((x >> 16) & 0xff) as u8,
        ((x >> 8) & 0xff) as u8,
        (x & 0xff) as u8,
    ];
    proof {
        assert(r@ =~= spec_be_bytes(x));
    }
    r
}

/// The bytes hashed into an index row's anti-grinding tag: the complemented
/// big-endian amount followed by the raw validator id, matching the layout of
/// the index key itself.
pub open spec fn tag_preimage(amount: u64, v: Validator) -> Seq<u8> {
    Seq::new(8, |i: int| !spec_be_bytes(amount)[i]) + v@
}

/// The anti-grinding tag of an index row.
pub open spec fn spec_tag(amount: u64, v: Validator) -> Seq<u8> {
    blake2_128_of(tag_preimage(amount, v))
}

/// Computes an index row's anti-grinding tag.
pub fn compute_tag(amount: u64, v: &Validator) -> (r: [u8; 16])
    ensures
        r@ == spec_tag(amount, *v),
{
    let be = u64_be_bytes(amount);
    let comp = reverse_lexicographic_order(be);
    let mut data: Vec<u8> = Vec::new();
    let mut i: usize = 0;
    while i < 8
        invariant
            i <= 8,
            comp@.len() == 8,
            forall|j: int| 0 <= j < 8 ==> comp@[j] == !spec_be_bytes(amount)[j],
            data@.len() == i,
            forall|j: int| 0 <= j < i ==> data@[j] == comp@[j],
        decreases 8 - i,
    {
        data.push(comp[i]);
        i += 1;
    }
    let mut k: usize = 0;
    while k < 32
        invariant
            k <= 32,
            comp@.len() == 8,
            forall|j: int| 0 <= j < 8 ==> comp@[j] == !spec_be_bytes(amount)[j],
            data@.len() == 8 + k,
            forall|j: int| 0 <= j < 8 ==> data@[j] == comp@[j],
            forall|j: int| 0 <= j < k ==> data@[8 + j] == v@[j],
        decreases 32 - k,
    {
        data.push(v.0[k]);
        k += 1;
    }
    proof {
        assert(data@ =~= tag_preimage(amount, *v));
    }
    blake2_128(data.as_slice())
}

/// One row of the sorted allocation index. Rows order by amount descending,
/// then by tag and validator id ascending — the same order as the raw byte
/// key (complemented big-endian amount, tag, validator id) sorts to.
#[derive(Clone, Copy, PartialEq, Eq, Debug)]
#[verifier::ext_equal]
pub struct IndexEntry {
    /// The allocated stake amount.
    pub amount: u64,
    /// Anti-grinding tag: blake2_128 of the complemented amount bytes and
    /// the validator id.
    pub tag: [u8; 16],
    /// The validator the row belongs to.
    pub validator: Validator,
}

/// The strict order of the sorted allocation index.
pub open spec fn entry_key_lt(a: IndexEntry, b: IndexEntry) -> bool {
    ||| a.amount > b.amount
    ||| (a.amount == b.amount && lex_lt(a.tag@, b.tag@))
    ||| (a.amount == b.amount && a.tag@ == b.tag@ && lex_lt(a.validator@, b.validator@))
}

/// Whether two index rows carry the same key material.
pub open spec fn entry_same_key(a: IndexEntry, b: IndexEntry) -> bool {
    a.amount == b.amount && a.tag@ == b.tag@ && a.validator@ == b.validator@
}

/// Two rows are always ordered one way or the other, unless they carry the
/// same key.
pub proof fn lemma_entry_key_total(a: IndexEntry, b: IndexEntry)
    requires
        !entry_key_lt(a, b),
        !entry_key_lt(b, a),
    ensures
        entry_same_key(a, b),
{
    lemma_lex_lt_total(a.tag@, b.tag@);
    lemma_lex_lt_total(a.validator@, b.validator@);
}

/// The row order is transitive.
pub proof fn lemma_entry_key_trans(a: IndexEntry, b: IndexEntry, c: IndexEntry)
    requires
        entry_key_lt(a, b),
        entry_key_lt(b, c),
    ensures
        entry_key_lt(a, c),
{
    if a.amount == b.amount && b.amount == c.amount {
        if lex_lt(a.tag@, b.tag@) && lex_lt(b.tag@, c.tag@) {
            lemma_lex_lt_trans(a.tag@, b.tag@, c.tag@);
        } else if a.tag@ == b.tag@ && b.tag@ == c.tag@ {
            lemma_lex_lt_trans(a.validator@, b.validator@, c.validator@);
        }
    }
}

/// The row order never holds both ways.
pub proof fn lemma_entry_key_asym(a: IndexEntry, b: IndexEntry)
    requires
        entry_key_lt(a, b),
    ensures
        !entry_key_lt(b, a),
{
    if entry_key_lt(b, a) {
        if a.amount == b.amount {
            if lex_lt(a.tag@, b.tag@) {
                lemma_lex_lt_asym(a.tag@, b.tag@);
            } else if a.tag@ == b.tag@ {
                lemma_lex_lt_asym(a.validator@, b.validator@);
            }
        }
    }
}

/// Compares two index rows in index order.
pub fn entry_less(a: &IndexEntry, b: &IndexEntry) -> (r: bool)
    ensures
        r == entry_key_lt(*a, *b),
{
    if a.amount != b.amount {
        return a.amount > b.amount;
    }
    if lex_less(&a.tag, &b.tag) {
        return true;
    }
    if lex_less(&b.tag, &a.tag) {
        return false;
    }
    proof {
        lemma_lex_lt_total(a.tag@, b.tag@);
    }
    lex_less(&a.validator.0, &b.validator.0)
}

/// Whether a run of index rows holds a row with exactly this amount, tag
/// and validator.
pub open spec fn triple_in(s: Seq<IndexEntry>, a: u64, t: Seq<u8>, w: Seq<u8>) -> bool {
    exists|i: int|
        0 <= i < s.len() && s[i].amount == a && s[i].tag@ == t && s[i].validator@ == w
}

/// Sum of the amounts of a run of index rows.
pub open spec fn sum_amounts(s: Seq<IndexEntry>) -> int
    decreases s.len(),
{
    if s.len() == 0 {
        0
    } else {
        sum_amounts(s.drop_last()) + s.last().amount
    }
}

/// Removing one row lowers the amount sum by exactly that row's amount.
pub proof fn lemma_sum_amounts_remove(s: Seq<IndexEntry>, i: int)
    requires
        0 <= i < s.len(),
    ensures
        sum_amounts(s.remove(i)) == sum_amounts(s) - s[i].amount,
    decreases s.len(),
{
    if i == s.len() - 1 {
        assert(s.remove(i) =~= s.drop_last());
    } else {
        lemma_sum_amounts_remove(s.drop_last(), i);
        assert(s.remove(i).drop_last() =~= s.drop_last().remove(i));
        assert(s.remove(i).last() == s.last());
    }
}

/// Amount sums are never negative.
pub proof fn lemma_sum_amounts_nonneg(s: Seq<IndexEntry>)
    ensures
        sum_amounts(s) >= 0,
    decreases s.len(),
{
    if s.len() > 0 {
        lemma_sum_amounts_nonneg(s.drop_last());
    }
}

/// A prefix of the index never outweighs the whole.
pub proof fn lemma_sum_amounts_take_le(s: Seq<IndexEntry>, n: int)
    requires
        0 <= n <= s.len(),
    ensures
        sum_amounts(s.take(n)) <= sum_amounts(s),
    decreases s.len() - n,
{
    if n == s.len() {
        assert(s.take(n) =~= s);
    } else {
        lemma_sum_amounts_take_le(s, n + 1);
        assert(s.take(n + 1).drop_last() =~= s.take(n));
        assert(s.take(n + 1).last() == s[n]);
    }
}

/// Inserting one row raises the amount sum by exactly that row's amount.
pub proof fn lemma_sum_amounts_insert(s: Seq<IndexEntry>, i: int, e: IndexEntry)
    requires
        0 <= i <= s.len(),
    ensures
        sum_amounts(s.insert(i, e)) == sum_amounts(s) + e.amount,
{
    assert(s.insert(i, e).remove(i) =~= s);
    lemma_sum_amounts_remove(s.insert(i, e), i);
}

/// Where the descending-stake iteration of a run of index rows stops: the
/// first position whose amount falls below the floor, or the end.
pub open spec fn cutoff(s: Seq<IndexEntry>, floor: u64) -> int
    decreases s.len(),
{
    if s.len() == 0 {
        0
    } else if s[0].amount < floor {
        0
    } else {
        1 + cutoff(s.drop_first(), floor)
    }
}

/// The cutoff bounds and splits the run as expected.
pub proof fn lemma_cutoff_properties(s: Seq<IndexEntry>, floor: u64)
    ensures
        0 <= cutoff(s, floor) <= s.len(),
        forall|i: int| 0 <= i < cutoff(s, floor) ==> (#[trigger] s[i]).amount >= floor,
        cutoff(s, floor) < s.len() ==> s[cutoff(s, floor)].amount < floor,
    decreases s.len(),
{
    if s.len() > 0 && s[0].amount >= floor {
        lemma_cutoff_properties(s.drop_first(), floor);
        let st = s.drop_first();
        assert forall|i: int| 0 <= i < cutoff(s, floor) implies (#[trigger] s[i]).amount
            >= floor by {
            if i > 0 {
                assert(st[i - 1].amount >= floor);
            }
        }
    }
}

/// The cutoff reaches past any run of rows that hold the floor.
pub proof fn lemma_cutoff_ge(s: Seq<IndexEntry>, floor: u64, k: int)
    requires
        0 <= k <= s.len(),
        forall|j: int| 0 <= j < k ==> (#[trigger] s[j]).amount >= floor,
    ensures
        cutoff(s, floor) >= k,
{
    lemma_cutoff_properties(s, floor);
    if cutoff(s, floor) < k {
        assert(s[cutoff(s, floor)].amount >= floor);
    }
}

/// Any position that is the first to fall below the floor is the cutoff.
pub proof fn lemma_cutoff_is_first(s: Seq<IndexEntry>, floor: u64, i: int)
    requires
        0 <= i <= s.len(),
        forall|j: int| 0 <= j < i ==> (#[trigger] s[j]).amount >= floor,
        i < s.len() ==> s[i].amount < floor,
    ensures
        cutoff(s, floor) == i,
{
    lemma_cutoff_properties(s, floor);
    let c = cutoff(s, floor);
    if c < i {
        assert(s[c].amount >= floor);
    }
    if c > i {
        assert(s[i].amount >= floor);
    }
}

/// The amount a run of index rows holds for a validator; zero when none.
pub open spec fn index_alloc_of(s: Seq<IndexEntry>, v: Seq<u8>) -> u64 {
    if exists|i: int| 0 <= i < s.len() && s[i].validator@ == v {
        s[choose|i: int| 0 <= i < s.len() && s[i].validator@ == v].amount
    } else {
        0
    }
}

/// The stake a list of validators holds in a run of index rows.
pub open spec fn stake_list(s: Seq<IndexEntry>, ps: Seq<(Validator, u64)>) -> int
    decreases ps.len(),
{
    if ps.len() == 0 {
        0
    } else {
        stake_list(s, ps.drop_last()) + index_alloc_of(s, ps.last().0@)
    }
}

/// With unique validators, the row at a position carries that validator's
/// amount.
proof fn lemma_index_alloc_at(s: Seq<IndexEntry>, k: int)
    requires
        0 <= k < s.len(),
        forall|i: int, j: int|
            0 <= i < j < s.len() ==> (#[trigger] s[i]).validator@ != (#[trigger] s[j]).validator@,
    ensures
        index_alloc_of(s, s[k].validator@) == s[k].amount,
{
    let v = s[k].validator@;
    assert(exists|i: int| 0 <= i < s.len() && s[i].validator@ == v);
    let i = choose|i: int| 0 <= i < s.len() && s[i].validator@ == v;
    if i != k {
        if i < k {
            assert(s[i].validator@ != s[k].validator@);
        } else {
            assert(s[k].validator@ != s[i].validator@);
        }
    }
}

/// Removing one validator's row leaves every other validator's amount alone.
proof fn lemma_index_alloc_remove(s: Seq<IndexEntry>, k: int, w: Seq<u8>)
    requires
        0 <= k < s.len(),
        w != s[k].validator@,
        forall|i: int, j: int|
            0 <= i < j < s.len() ==> (#[trigger] s[i]).validator@ != (#[trigger] s[j]).validator@,
    ensures
        index_alloc_of(s.remove(k), w) == index_alloc_of(s, w),
{
    s.remove_ensures(k);
    let sr = s.remove(k);
    if exists|i: int| 0 <= i < s.len() && s[i].validator@ == w {
        let i = choose|i: int| 0 <= i < s.len() && s[i].validator@ == w;
        assert(i != k);
        if i < k {
            assert(sr[i] == s[i]);
        } else {
            assert(sr[i - 1] == s[i]);
        }
        assert(exists|j: int| 0 <= j < sr.len() && sr[j].validator@ == w);
        let j = choose|j: int| 0 <= j < sr.len() && sr[j].validator@ == w;
        let jo = if j < k {
            j
        } else {
            j + 1
        };
        assert(sr[j] == s[jo]);
        if jo != i {
            if jo < i {
                assert(s[jo].validator@ != s[i].validator@);
            } else {
                assert(s[i].validator@ != s[jo].validator@);
            }
        }
        lemma_index_alloc_at(s, i);
    } else {
        if exists|j: int| 0 <= j < sr.len() && sr[j].validator@ == w {
            let j = choose|j: int| 0 <= j < sr.len() && sr[j].validator@ == w;
            let jo = if j < k {
                j
            } else {
                j + 1
            };
            assert(sr[j] == s[jo]);
        }
    }
}

/// A stake list over validators missing from the removed row is unchanged.
proof fn lemma_stake_list_remove(s: Seq<IndexEntry>, k: int, ps: Seq<(Validator, u64)>)
    requires
        0 <= k < s.len(),
        forall|j: int| 0 <= j < ps.len() ==> (#[trigger] ps[j]).0@ != s[k].validator@,
        forall|i: int, j: int|
            0 <= i < j < s.len() ==> (#[trigger] s[i]).validator@ != (#[trigger] s[j]).validator@,
    ensures
        stake_list(s.remove(k), ps) == stake_list(s, ps),
    decreases ps.len(),
{
    if ps.len() > 0 {
        lemma_stake_list_remove(s, k, ps.drop_last());
        lemma_index_alloc_remove(s, k, ps.last().0@);
    }
}

/// Distinct validators can never hold more stake together than the whole
/// index carries.
pub proof fn lemma_stake_list_le_sum(s: Seq<IndexEntry>, ps: Seq<(Validator, u64)>)
    requires
        forall|i: int, j: int|
            0 <= i < j < s.len() ==> (#[trigger] s[i]).validator@ != (#[trigger] s[j]).validator@,
        forall|i: int, j: int|
            0 <= i < j < ps.len() ==> (#[trigger] ps[i]).0@ != (#[trigger] ps[j]).0@,
    ensures
        0 <= stake_list(s, ps) <= sum_amounts(s),
    decreases ps.len(),
{
    lemma_sum_amounts_nonneg(s);
    if ps.len() > 0 {
        let v = ps.last().0@;
        if exists|i: int| 0 <= i < s.len() && s[i].validator@ == v {
            let k = choose|i: int| 0 <= i < s.len() && s[i].validator@ == v;
            lemma_index_alloc_at(s, k);
            s.remove_ensures(k);
            let sr = s.remove(k);
            assert forall|i: int, j: int|
                0 <= i < j < sr.len() implies (#[trigger] sr[i]).validator@ != (
            #[trigger] sr[j]).validator@ by {
                let io = if i < k {
                    i
                } else {
                    i + 1
                };
                let jo = if j < k {
                    j
                } else {
                    j + 1
                };
                assert(sr[i] == s[io] && sr[j] == s[jo]);
            }
            assert forall|j: int|
                0 <= j < ps.drop_last().len() implies (#[trigger] ps.drop_last()[j]).0@ != s[
                k
            ].validator@ by {
                assert(ps.drop_last()[j] == ps[j]);
                assert(ps[j].0@ != ps[ps.len() - 1].0@);
            }
            lemma_stake_list_remove(s, k, ps.drop_last());
            lemma_stake_list_le_sum(sr, ps.drop_last());
            lemma_sum_amounts_remove(s, k);
        } else {
            lemma_stake_list_le_sum(s, ps.drop_last());
            assert(index_alloc_of(s, v) == 0);
        }
    }
}

/// The 16-byte array whose bytes are a row's tag.
pub open spec fn tag_bytes(amount: u64, v: Validator) -> [u8; 16] {
    choose|arr: [u8; 16]| arr@ == spec_tag(amount, v)
}

/// A run of index rows with any row of one validator removed.
pub open spec fn index_remove_validator(s: Seq<IndexEntry>, v: Seq<u8>) -> Seq<IndexEntry>
    decreases s.len(),
{
    if s.len() == 0 {
        s
    } else {
        let rest = index_remove_validator(s.drop_first(), v);
        if s[0].validator@ == v {
            rest
        } else {
            seq![s[0]] + rest
        }
    }
}

/// A run of index rows with one more row placed at its sorted position.
pub open spec fn index_insert_sorted(s: Seq<IndexEntry>, e: IndexEntry) -> Seq<IndexEntry>
    decreases s.len(),
{
    if s.len() == 0 {
        seq![e]
    } else if entry_key_lt(e, s[0]) {
        seq![e] + s
    } else {
        seq![s[0]] + index_insert_sorted(s.drop_first(), e)
    }
}

/// The sorted allocation index after a validator's allocation is written:
/// its old row leaves, and a fresh row with the new amount and its tag
/// arrives unless the amount is zero.
pub open spec fn spec_set_index(s: Seq<IndexEntry>, v: Validator, amount: u64) -> Seq<IndexEntry> {
    let removed = index_remove_validator(s, v@);
    if amount == 0 {
        removed
    } else {
        index_insert_sorted(
            removed,
            IndexEntry { amount, tag: tag_bytes(amount, v), validator: v },
        )
    }
}

/// Removing an absent validator changes nothing.
proof fn lemma_index_remove_absent(s: Seq<IndexEntry>, v: Seq<u8>)
    requires
        forall|j: int| 0 <= j < s.len() ==> (#[trigger] s[j]).validator@ != v,
    ensures
        index_remove_validator(s, v) == s,
    decreases s.len(),
{
    if s.len() > 0 {
        lemma_index_remove_absent(s.drop_first(), v);
        assert(seq![s[0]] + s.drop_first() =~= s);
    }
}

/// Removing a validator with exactly one row removes exactly that position.
proof fn lemma_index_remove_at(s: Seq<IndexEntry>, v: Seq<u8>, k: int)
    requires
        0 <= k < s.len(),
        s[k].validator@ == v,
        forall|j: int| 0 <= j < s.len() && j != k ==> (#[trigger] s[j]).validator@ != v,
    ensures
        index_remove_validator(s, v) == s.remove(k),
    decreases s.len(),
{
    if k == 0 {
        lemma_index_remove_absent(s.drop_first(), v);
        assert(s.remove(0) =~= s.drop_first());
    } else {
        lemma_index_remove_at(s.drop_first(), v, k - 1);
        assert(seq![s[0]] + s.drop_first().remove(k - 1) =~= s.remove(k));
    }
}

/// Inserting where every earlier row sorts before and the next row sorts
/// after lands at exactly that position.
proof fn lemma_index_insert_at(s: Seq<IndexEntry>, e: IndexEntry, p: int)
    requires
        0 <= p <= s.len(),
        forall|q: int| 0 <= q < p ==> !entry_key_lt(e, #[trigger] s[q]),
        p < s.len() ==> entry_key_lt(e, s[p]),
    ensures
        index_insert_sorted(s, e) == s.insert(p, e),
    decreases s.len(),
{
    if s.len() == 0 {
        assert(index_insert_sorted(s, e) =~= s.insert(0, e));
    } else if p == 0 {
        assert(seq![e] + s =~= s.insert(0, e));
    } else {
        lemma_index_insert_at(s.drop_first(), e, p - 1);
        assert(seq![s[0]] + s.drop_first().insert(p - 1, e) =~= s.insert(p, e));
    }
}

/// Nothing sorts strictly before itself.
proof fn lemma_lex_lt_irrefl(t: Seq<u8>)
    ensures
        !lex_lt(t, t),
{
    if lex_lt(t, t) {
        let k = choose|k: int|
            0 <= k < t.len() && k < t.len() && t[k] < t[k] && (forall|j: int|
                0 <= j < k ==> t[j] == t[j]);
    }
}

/// Rows with the same key never sort against each other.
proof fn lemma_same_key_not_lt(a: IndexEntry, b: IndexEntry)
    requires
        entry_same_key(a, b),
    ensures
        !entry_key_lt(a, b),
{
    lemma_lex_lt_irrefl(a.tag@);
    lemma_lex_lt_irrefl(a.validator@);
}

/// Whether a run of index rows is strictly sorted with unique validators.
pub open spec fn run_wf(s: Seq<IndexEntry>) -> bool {
    &&& (forall|i: int, j: int|
        0 <= i < j < s.len() ==> entry_key_lt(#[trigger] s[i], #[trigger] s[j]))
    &&& (forall|i: int, j: int|
        0 <= i < j < s.len() ==> (#[trigger] s[i]).validator@ != (#[trigger] s[j]).validator@)
}

/// What removing a validator leaves: a well-formed run without it, with
/// every other row untouched.
proof fn lemma_remove_props(s: Seq<IndexEntry>, v: Seq<u8>)
    requires
        run_wf(s),
    ensures
        run_wf(index_remove_validator(s, v)),
        forall|j: int|
            0 <= j < index_remove_validator(s, v).len() ==> (#[trigger] index_remove_validator(
                s,
                v,
            )[j]).validator@ != v,
        forall|a: u64, t: Seq<u8>, w: Seq<u8>|
            w != v ==> triple_in(index_remove_validator(s, v), a, t, w) == triple_in(s, a, t, w),
{
    let r = index_remove_validator(s, v);
    if exists|k: int| 0 <= k < s.len() && s[k].validator@ == v {
        let k = choose|k: int| 0 <= k < s.len() && s[k].validator@ == v;
        assert forall|j: int| 0 <= j < s.len() && j != k implies (#[trigger] s[j]).validator@
            != v by {
            if j < k {
                assert(s[j].validator@ != s[k].validator@);
            } else {
                assert(s[k].validator@ != s[j].validator@);
            }
        }
        lemma_index_remove_at(s, v, k);
        s.remove_ensures(k);
        assert forall|i: int, j: int| 0 <= i < j < r.len() implies entry_key_lt(
            #[trigger] r[i],
            #[trigger] r[j],
        ) && r[i].validator@ != r[j].validator@ by {
            let io = if i < k {
                i
            } else {
                i + 1
            };
            let jo = if j < k {
                j
            } else {
                j + 1
            };
            assert(r[i] == s[io] && r[j] == s[jo]);
            assert(entry_key_lt(s[io], s[jo]));
        }
        assert forall|j: int| 0 <= j < r.len() implies (#[trigger] r[j]).validator@ != v by {
            let jo = if j < k {
                j
            } else {
                j + 1
            };
            assert(r[j] == s[jo]);
        }
        assert forall|a: u64, t: Seq<u8>, w: Seq<u8>|
            w != v implies triple_in(r, a, t, w) == triple_in(s, a, t, w) by {
            if triple_in(s, a, t, w) {
                let m = choose|m: int|
                    0 <= m < s.len() && s[m].amount == a && s[m].tag@ == t && s[m].validator@ == w;
                assert(m != k);
                if m < k {
                    assert(r[m] == s[m]);
                } else {
                    assert(r[m - 1] == s[m]);
                }
                assert(triple_in(r, a, t, w));
            }
            if triple_in(r, a, t, w) {
                let m = choose|m: int|
                    0 <= m < r.len() && r[m].amount == a && r[m].tag@ == t && r[m].validator@ == w;
                let mo = if m < k {
                    m
                } else {
                    m + 1
                };
                assert(r[m] == s[mo]);
                assert(triple_in(s, a, t, w));
            }
        }
    } else {
        assert forall|j: int| 0 <= j < s.len() implies (#[trigger] s[j]).validator@ != v by {
            if s[j].validator@ == v {
            }
        }
        lemma_index_remove_absent(s, v);
    }
}

/// The position a fresh row sorts to.
spec fn insert_pos(s: Seq<IndexEntry>, e: IndexEntry) -> int
    decreases s.len(),
{
    if s.len() == 0 {
        0
    } else if entry_key_lt(e, s[0]) {
        0
    } else {
        1 + insert_pos(s.drop_first(), e)
    }
}

/// The insertion position splits the run: everything before it sorts ahead
/// of the fresh row, and the row at it sorts after.
proof fn lemma_insert_pos_props(s: Seq<IndexEntry>, e: IndexEntry)
    ensures
        0 <= insert_pos(s, e) <= s.len(),
        forall|q: int| 0 <= q < insert_pos(s, e) ==> !entry_key_lt(e, #[trigger] s[q]),
        insert_pos(s, e) < s.len() ==> entry_key_lt(e, s[insert_pos(s, e)]),
    decreases s.len(),
{
    if s.len() > 0 && !entry_key_lt(e, s[0]) {
        lemma_insert_pos_props(s.drop_first(), e);
        let st = s.drop_first();
        let p = insert_pos(s, e);
        assert forall|q: int| 0 <= q < p implies !entry_key_lt(e, #[trigger] s[q]) by {
            if q > 0 {
                assert(!entry_key_lt(e, st[q - 1]));
            }
        }
        if p < s.len() {
            assert(s[p] == st[p - 1]);
        }
    }
}

/// What inserting a fresh validator's row yields: a well-formed run with
/// exactly that row added.
proof fn lemma_insert_props(s: Seq<IndexEntry>, e: IndexEntry)
    requires
        run_wf(s),
        forall|j: int| 0 <= j < s.len() ==> (#[trigger] s[j]).validator@ != e.validator@,
    ensures
        run_wf(index_insert_sorted(s, e)),
        forall|a: u64, t: Seq<u8>, w: Seq<u8>|
            w != e.validator@ ==> triple_in(index_insert_sorted(s, e), a, t, w) == triple_in(
                s,
                a,
                t,
                w,
            ),
        forall|a: u64, t: Seq<u8>|
            triple_in(index_insert_sorted(s, e), a, t, e.validator@) == (a == e.amount && t
                == e.tag@),
{
    lemma_insert_pos_props(s, e);
    let p = insert_pos(s, e);
    lemma_index_insert_at(s, e, p);
    s.insert_ensures(p, e);
    let r = index_insert_sorted(s, e);
    assert(r == s.insert(p, e));
    assert(r[p] == e);
    assert forall|q: int| 0 <= q < p implies entry_key_lt(#[trigger] s[q], e) by {
        if !entry_key_lt(s[q], e) {
            lemma_entry_key_total(e, s[q]);
        }
    }
    assert forall|q: int| p <= q < s.len() implies entry_key_lt(e, #[trigger] s[q]) by {
        if q > p {
            lemma_entry_key_trans(e, s[p], s[q]);
        }
    }
    assert forall|x: int, y: int| 0 <= x < y < r.len() implies entry_key_lt(
        #[trigger] r[x],
        #[trigger] r[y],
    ) && r[x].validator@ != r[y].validator@ by {
        if x == p {
            assert(r[y] == s[y - 1] && y - 1 >= p);
        } else if y == p {
            assert(r[x] == s[x] && x < p);
        } else {
            let xo = if x < p {
                x
            } else {
                x - 1
            };
            let yo = if y < p {
                y
            } else {
                y - 1
            };
            assert(r[x] == s[xo] && r[y] == s[yo]);
            assert(entry_key_lt(s[xo], s[yo]));
        }
    }
    assert forall|a: u64, t: Seq<u8>, w: Seq<u8>|
        w != e.validator@ implies triple_in(r, a, t, w) == triple_in(s, a, t, w) by {
        if triple_in(s, a, t, w) {
            let m = choose|m: int|
                0 <= m < s.len() && s[m].amount == a && s[m].tag@ == t && s[m].validator@ == w;
            let mn = if m < p {
                m
            } else {
                m + 1
            };
            assert(r[mn] == s[m]);
            assert(triple_in(r, a, t, w));
        }
        if triple_in(r, a, t, w) {
            let m = choose|m: int|
                0 <= m < r.len() && r[m].amount == a && r[m].tag@ == t && r[m].validator@ == w;
            assert(m != p);
            let mo = if m < p {
                m
            } else {
                m - 1
            };
            assert(r[m] == s[mo]);
            assert(triple_in(s, a, t, w));
        }
    }
    assert forall|a: u64, t: Seq<u8>|
        triple_in(r, a, t, e.validator@) == (a == e.amount && t == e.tag@) by {
        if triple_in(r, a, t, e.validator@) {
            let m = choose|m: int|
                0 <= m < r.len() && r[m].amount == a && r[m].tag@ == t && r[m].validator@
                    == e.validator@;
            if m != p {
                let mo = if m < p {
                    m
                } else {
                    m - 1
                };
                assert(r[m] == s[mo]);
            }
        }
        if a == e.amount && t == e.tag@ {
            assert(r[p].amount == a && r[p].tag@ == t && r[p].validator@ == e.validator@);
        }
    }
}

/// Two strictly sorted runs holding exactly the same rows are the same run.
proof fn lemma_sorted_same_triples_eq(s1: Seq<IndexEntry>, s2: Seq<IndexEntry>)
    requires
        run_wf(s1),
        run_wf(s2),
        forall|a: u64, t: Seq<u8>, w: Seq<u8>|
            triple_in(s1, a, t, w) == triple_in(s2, a, t, w),
    ensures
        s1 == s2,
    decreases s1.len(),
{
    if s1.len() == 0 {
        if s2.len() > 0 {
            assert(triple_in(s2, s2[0].amount, s2[0].tag@, s2[0].validator@));
        }
        assert(s1 =~= s2);
    } else {
        assert(triple_in(s1, s1[0].amount, s1[0].tag@, s1[0].validator@));
        let m = choose|m: int|
            0 <= m < s2.len() && s2[m].amount == s1[0].amount && s2[m].tag@ == s1[0].tag@ && s2[
                m
            ].validator@ == s1[0].validator@;
        assert(triple_in(s2, s2[0].amount, s2[0].tag@, s2[0].validator@));
        let m2 = choose|m2: int|
            0 <= m2 < s1.len() && s1[m2].amount == s2[0].amount && s1[m2].tag@ == s2[0].tag@
                && s1[m2].validator@ == s2[0].validator@;
        if m > 0 {
            assert(entry_key_lt(s2[0], s2[m]));
            // the head of one run sorts at or before the head of the other,
            // both ways: the heads carry the same key
            if m2 == 0 {
                assert(entry_same_key(s2[0], s1[0]));
                assert(entry_same_key(s2[m], s1[0]));
                assert(entry_same_key(s2[0], s2[m]));
                lemma_same_key_not_lt(s2[0], s2[m]);
            } else {
                assert(entry_key_lt(s1[0], s1[m2]));
                assert(entry_key_lt(s1[0], s2[0]));
                assert(entry_key_lt(s2[0], s1[0]));
                lemma_entry_key_asym(s1[0], s2[0]);
            }
        }
        assert(entry_same_key(s1[0], s2[0]));
        assert(s1[0].tag =~= s2[0].tag);
        assert(s1[0].validator.0 =~= s2[0].validator.0);
        assert(s1[0] =~= s2[0]);
        let t1 = s1.drop_first();
        let t2 = s2.drop_first();
        assert forall|i: int, j: int| 0 <= i < j < t1.len() implies entry_key_lt(
            #[trigger] t1[i],
            #[trigger] t1[j],
        ) && t1[i].validator@ != t1[j].validator@ by {
            assert(t1[i] == s1[i + 1] && t1[j] == s1[j + 1]);
            assert(entry_key_lt(s1[i + 1], s1[j + 1]));
        }
        assert forall|i: int, j: int| 0 <= i < j < t2.len() implies entry_key_lt(
            #[trigger] t2[i],
            #[trigger] t2[j],
        ) && t2[i].validator@ != t2[j].validator@ by {
            assert(t2[i] == s2[i + 1] && t2[j] == s2[j + 1]);
            assert(entry_key_lt(s2[i + 1], s2[j + 1]));
        }
        assert forall|a: u64, t: Seq<u8>, w: Seq<u8>|
            triple_in(t1, a, t, w) == triple_in(t2, a, t, w) by {
            if triple_in(t1, a, t, w) {
                let i = choose|i: int|
                    0 <= i < t1.len() && t1[i].amount == a && t1[i].tag@ == t && t1[i].validator@
                        == w;
                assert(t1[i] == s1[i + 1]);
                assert(triple_in(s1, a, t, w));
                let j = choose|j: int|
                    0 <= j < s2.len() && s2[j].amount == a && s2[j].tag@ == t && s2[j].validator@
                        == w;
                if j == 0 {
                    // the shared head cannot repeat deeper in a strict run
                    assert(entry_same_key(s1[0], s1[i + 1]));
                    assert(entry_key_lt(s1[0], s1[i + 1]));
                    lemma_same_key_not_lt(s1[0], s1[i + 1]);
                }
                assert(t2[j - 1] == s2[j]);
                assert(triple_in(t2, a, t, w));
            }
            if triple_in(t2, a, t, w) {
                let i = choose|i: int|
                    0 <= i < t2.len() && t2[i].amount == a && t2[i].tag@ == t && t2[i].validator@
                        == w;
                assert(t2[i] == s2[i + 1]);
                assert(triple_in(s2, a, t, w));
                let j = choose|j: int|
                    0 <= j < s1.len() && s1[j].amount == a && s1[j].tag@ == t && s1[j].validator@
                        == w;
                if j == 0 {
                    assert(entry_same_key(s2[0], s2[i + 1]));
                    assert(entry_key_lt(s2[0], s2[i + 1]));
                    lemma_same_key_not_lt(s2[0], s2[i + 1]);
                }
                assert(t1[j - 1] == s1[j]);
                assert(triple_in(t1, a, t, w));
            }
        }
        lemma_sorted_same_triples_eq(t1, t2);
        assert forall|i: int| 0 <= i < s1.len() implies s1[i] == s2[i] by {
            if i > 0 {
                assert(s1[i] == t1[i - 1] && s2[i] == t2[i - 1]);
            }
        }
        assert(s1 =~= s2);
    }
}

/// Law: increasing a validator's allocation and then decreasing it by the
/// same amount, with no other write in between, restores the sorted
/// allocation index to its prior run exactly — the validator's row returns
/// with its old amount, tag and position. (The allocation rows return
/// likewise, directly by `set_allocation`'s per-validator clauses.) The
/// conclusion holds whenever the ledger's tags are the digests of their own
/// key material, which is true of every ledger these operations build.
pub proof fn lemma_allocation_roundtrip(l: StakeLedger, v: Validator, x: u64)
    requires
        l.wf(),
        l.alloc_of(v@) + x <= u64::MAX,
    ensures
        l.tags_valid() ==> spec_set_index(
            spec_set_index(l.index(), v, (l.alloc_of(v@) + x) as u64),
            v,
            l.alloc_of(v@),
        ) == l.index(),
{
    if l.tags_valid() {
        let s = l.index();
        let a0 = l.alloc_of(v@);
        let a1 = (a0 + x) as u64;
        assert(run_wf(s));
        // the first write leaves a well-formed run whose rows differ from
        // the old one only at the validator
        lemma_remove_props(s, v@);
        let sr = index_remove_validator(s, v@);
        let s1 = spec_set_index(s, v, a1);
        if a1 != 0 {
            let e1 = IndexEntry { amount: a1, tag: tag_bytes(a1, v), validator: v };
            lemma_insert_props(sr, e1);
        }
        assert(run_wf(s1));
        assert forall|a: u64, t: Seq<u8>, w: Seq<u8>|
            w != v@ implies triple_in(s1, a, t, w) == triple_in(s, a, t, w) by {
            assert(triple_in(sr, a, t, w) == triple_in(s, a, t, w));
        }
        // the second write restores the validator's old row
        lemma_remove_props(s1, v@);
        let s1r = index_remove_validator(s1, v@);
        let s2 = spec_set_index(s1, v, a0);
        let e0 = IndexEntry { amount: a0, tag: tag_bytes(a0, v), validator: v };
        if a0 != 0 {
            lemma_insert_props(s1r, e0);
            assert(s2 == index_insert_sorted(s1r, e0));
            assert(e0.validator@ == v@);
        }
        assert(run_wf(s2));
        assert forall|a: u64, t: Seq<u8>, w: Seq<u8>|
            w != v@ implies triple_in(s2, a, t, w) == triple_in(s, a, t, w) by {
            assert(triple_in(s2, a, t, w) == triple_in(s1r, a, t, w));
            assert(triple_in(s1r, a, t, w) == triple_in(s1, a, t, w));
        }
        if a0 != 0 {
            // the old row's tag pins the digest value, so the rewritten row
            // carries exactly the old key material
            assert(l.has_row(v@));
            let j = choose|j: int| 0 <= j < l.rows().len() && l.rows()[j].0@ == v@;
            l.lemma_row_amount(j);
            assert(l.has_entry(v@, a0));
            let k = choose|k: int|
                0 <= k < s.len() && s[k].validator@ == v@ && s[k].amount == a0;
            assert(s[k].tag@ == spec_tag(s[k].amount, s[k].validator));
            assert(tag_preimage(a0, s[k].validator) =~= tag_preimage(a0, v));
            assert(s[k].tag@ == spec_tag(a0, v));
            assert(exists|arr: [u8; 16]| arr@ == spec_tag(a0, v)) by {
                assert(s[k].tag@ == spec_tag(a0, v));
            }
            assert(tag_bytes(a0, v)@ == spec_tag(a0, v));
            assert forall|a: u64, t: Seq<u8>|
                triple_in(s, a, t, v@) == (a == a0 && t == spec_tag(a0, v)) by {
                if triple_in(s, a, t, v@) {
                    let m = choose|m: int|
                        0 <= m < s.len() && s[m].amount == a && s[m].tag@ == t && s[m].validator@
                            == v@;
                    if m != k {
                        if m < k {
                            assert(s[m].validator@ != s[k].validator@);
                        } else {
                            assert(s[k].validator@ != s[m].validator@);
                        }
                    }
                }
                if a == a0 && t == spec_tag(a0, v) {
                    assert(s[k].amount == a && s[k].tag@ == t && s[k].validator@ == v@);
                }
            }
            assert forall|a: u64, t: Seq<u8>|
                triple_in(s2, a, t, v@) == triple_in(s, a, t, v@) by {
                assert(triple_in(index_insert_sorted(s1r, e0), a, t, e0.validator@) == (a
                    == e0.amount && t == e0.tag@));
                assert(triple_in(s2, a, t, v@) == (a == a0 && t == tag_bytes(a0, v)@));
                assert(tag_bytes(a0, v)@ == spec_tag(a0, v));
            }
        } else {
            // without a row there is nothing to restore on either side
            assert(!l.has_row(v@));
            assert forall|a: u64, t: Seq<u8>| !triple_in(s, a, t, v@) by {
                if triple_in(s, a, t, v@) {
                    let m = choose|m: int|
                        0 <= m < s.len() && s[m].amount == a && s[m].tag@ == t && s[m].validator@
                            == v@;
                    assert(l.has_row_with(s[m].validator@, s[m].amount));
                }
            }
            assert forall|a: u64, t: Seq<u8>| !triple_in(s2, a, t, v@) by {
                assert(triple_in(s2, a, t, v@) == triple_in(s1r, a, t, v@));
            }
        }
        assert forall|a: u64, t: Seq<u8>, w: Seq<u8>|
            triple_in(s2, a, t, w) == triple_in(s, a, t, w) by {
            if w != v@ {
            }
        }
        lemma_sorted_same_triples_eq(s2, s);
    }
}

/// The stake ledger: the allocation rows and the sorted allocation index,
/// always mutated together.
#[verifier::ext_equal]
pub struct StakeLedger {
    /// Allocation rows: a validator is present exactly while its amount is
    /// nonzero.
    pub allocations: Vec<(Validator, u64)>,
    /// The sorted allocation index, in `entry_key_lt` order.
    pub sorted: Vec<IndexEntry>,
}

impl StakeLedger {
    /// The allocation rows.
    pub open spec fn rows(&self) -> Seq<(Validator, u64)> {
        self.allocations@
    }

    /// The sorted allocation index.
    pub open spec fn index(&self) -> Seq<IndexEntry> {
        self.sorted@
    }

    /// Whether a validator has an allocation row.
    pub open spec fn has_row(&self, v: Seq<u8>) -> bool {
        exists|i: int| 0 <= i < self.rows().len() && self.rows()[i].0@ == v
    }

    /// A validator's allocated amount; zero when it has no row.
    pub open spec fn alloc_of(&self, v: Seq<u8>) -> u64 {
        if self.has_row(v) {
            self.rows()[choose|i: int| 0 <= i < self.rows().len() && self.rows()[i].0@ == v].1
        } else {
            0
        }
    }

    /// Whether the index holds a row for this validator with this amount.
    pub open spec fn has_entry(&self, v: Seq<u8>, amount: u64) -> bool {
        exists|i: int|
            0 <= i < self.index().len() && self.index()[i].validator@ == v && self.index()[
                i
            ].amount == amount
    }

    /// Well-formedness: the index is strictly sorted, validators appear at
    /// most once on either side, rows hold positive amounts, and index rows
    /// and allocation rows mirror each other exactly.
    pub open spec fn wf(&self) -> bool {
        &&& (forall|i: int, j: int|
            0 <= i < j < self.index().len() ==> entry_key_lt(
                #[trigger] self.index()[i],
                #[trigger] self.index()[j],
            ))
        &&& (forall|i: int, j: int|
            0 <= i < j < self.index().len() ==> (#[trigger] self.index()[i]).validator@ != (
            #[trigger] self.index()[j]).validator@)
        &&& (forall|i: int, j: int|
            0 <= i < j < self.rows().len() ==> (#[trigger] self.rows()[i]).0@ != (
            #[trigger] self.rows()[j]).0@)
        &&& (forall|i: int| 0 <= i < self.rows().len() ==> (#[trigger] self.rows()[i]).1 > 0)
        &&& (forall|i: int|
            0 <= i < self.index().len() ==> self.has_row_with(
                (#[trigger] self.index()[i]).validator@,
                self.index()[i].amount,
            ))
        &&& (forall|i: int|
            0 <= i < self.rows().len() ==> self.has_entry(
                (#[trigger] self.rows()[i]).0@,
                self.rows()[i].1,
            ))
    }

    /// Whether the allocation rows hold this validator with this amount.
    pub open spec fn has_row_with(&self, v: Seq<u8>, amount: u64) -> bool {
        exists|j: int|
            0 <= j < self.rows().len() && self.rows()[j].0@ == v && self.rows()[j].1 == amount
    }

    /// Every index row's tag is the digest of its own key material. All
    /// ledgers this module builds satisfy this; it is stated apart from
    /// `wf` because no operation needs it to run, only exact-restoration
    /// laws need it to conclude.
    pub open spec fn tags_valid(&self) -> bool {
        forall|i: int|
            0 <= i < self.index().len() ==> (#[trigger] self.index()[i]).tag@ == spec_tag(
                self.index()[i].amount,
                self.index()[i].validator,
            )
    }

    /// An empty ledger.
    pub fn new() -> (r: StakeLedger)
        ensures
            r.wf(),
            r.tags_valid(),
            r.rows().len() == 0,
            r.index().len() == 0,
    {
        StakeLedger { allocations: Vec::new(), sorted: Vec::new() }
    }

    /// A row's owner maps to that row's amount.
    pub proof fn lemma_row_amount(&self, i: int)
        requires
            self.wf(),
            0 <= i < self.rows().len(),
        ensures
            self.alloc_of(self.rows()[i].0@) == self.rows()[i].1,
            self.has_row(self.rows()[i].0@),
    {
        let v = self.rows()[i].0@;
        assert(self.has_row(v));
        let k = choose|k: int| 0 <= k < self.rows().len() && self.rows()[k].0@ == v;
        if k != i {
            if k < i {
                assert(self.rows()[k].0@ != self.rows()[i].0@);
            } else {
                assert(self.rows()[i].0@ != self.rows()[k].0@);
            }
        }
    }

    /// No single allocation outweighs the whole index.
    pub proof fn lemma_alloc_le_sum(&self, v: Seq<u8>)
        requires
            self.wf(),
        ensures
            self.alloc_of(v) as int <= sum_amounts(self.index()),
            sum_amounts(self.index()) >= 0,
    {
        lemma_sum_amounts_nonneg(self.index());
        if self.has_row(v) {
            let j = choose|j: int| 0 <= j < self.rows().len() && self.rows()[j].0@ == v;
            self.lemma_row_amount(j);
            assert(self.has_entry(self.rows()[j].0@, self.rows()[j].1));
            let k = choose|k: int|
                0 <= k < self.index().len() && self.index()[k].validator@ == v && self.index()[
                    k
                ].amount == self.rows()[j].1;
            lemma_sum_amounts_remove(self.index(), k);
            lemma_sum_amounts_nonneg(self.index().remove(k));
        }
    }

    /// A validator's allocation equals what the index holds for it.
    pub proof fn lemma_alloc_is_index_alloc(&self, v: Seq<u8>)
        requires
            self.wf(),
        ensures
            self.alloc_of(v) == index_alloc_of(self.index(), v),
    {
        let s = self.index();
        if self.has_row(v) {
            let j = choose|j: int| 0 <= j < self.rows().len() && self.rows()[j].0@ == v;
            self.lemma_row_amount(j);
            assert(self.has_entry(self.rows()[j].0@, self.rows()[j].1));
            let k = choose|k: int|
                0 <= k < s.len() && s[k].validator@ == v && s[k].amount == self.rows()[j].1;
            assert(exists|i: int| 0 <= i < s.len() && s[i].validator@ == v);
            let i = choose|i: int| 0 <= i < s.len() && s[i].validator@ == v;
            if i != k {
                if i < k {
                    assert(s[i].validator@ != s[k].validator@);
                } else {
                    assert(s[k].validator@ != s[i].validator@);
                }
            }
        } else {
            if exists|i: int| 0 <= i < s.len() && s[i].validator@ == v {
                let i = choose|i: int| 0 <= i < s.len() && s[i].validator@ == v;
                assert(self.has_row_with(s[i].validator@, s[i].amount));
            }
        }
    }

    /// Returns the amount a validator has allocated, zero when none.
    pub fn get_allocation(&self, v: &Validator) -> (r: u64)
        requires
            self.wf(),
        ensures
            r == self.alloc_of(v@),
            (r > 0) == self.has_row(v@),
    {
        let n = self.allocations.len();
        let mut i: usize = 0;
        while i < n
            invariant
                i <= n,
                n == self.rows().len(),
                self.wf(),
                forall|j: int| 0 <= j < i ==> (#[trigger] self.rows()[j]).0@ != v@,
            decreases n - i,
        {
            if self.allocations[i].0.eq_id(v) {
                proof {
                    self.lemma_row_amount(i as int);
                }
                return self.allocations[i].1;
            }
            i += 1;
        }
        proof {
            assert(!self.has_row(v@));
        }
        0
    }

    /// A ledger without a row for a validator holds no index row for it
    /// either.
    pub proof fn lemma_no_row_no_entry(&self, v: Seq<u8>)
        requires
            self.wf(),
            !self.has_row(v),
        ensures
            forall|a: u64, t: Seq<u8>| !triple_in(self.index(), a, t, v),
    {
        assert forall|a: u64, t: Seq<u8>| !triple_in(self.index(), a, t, v) by {
            if triple_in(self.index(), a, t, v) {
                let i = choose|i: int|
                    0 <= i < self.index().len() && self.index()[i].amount == a && self.index()[
                        i
                    ].tag@ == t && self.index()[i].validator@ == v;
                assert(self.has_row_with(self.index()[i].validator@, self.index()[i].amount));
            }
        }
    }

    /// Finds the position of a validator's allocation row.
    fn find_row(&self, v: &Validator) -> (r: Option<usize>)
        ensures
            match r {
                Some(i) => i < self.rows().len() && self.rows()[i as int].0@ == v@,
                None => !self.has_row(v@),
            },
    {
        let n = self.allocations.len();
        let mut i: usize = 0;
        while i < n
            invariant
                i <= n,
                n == self.rows().len(),
                forall|j: int| 0 <= j < i ==> (#[trigger] self.rows()[j]).0@ != v@,
            decreases n - i,
        {
            if self.allocations[i].0.eq_id(v) {
                return Some(i);
            }
            i += 1;
        }
        None
    }

    /// Finds the position of a validator's index row; the row must exist.
    fn find_entry(&self, v: &Validator) -> (r: usize)
        requires
            exists|i: int| 0 <= i < self.index().len() && self.index()[i].validator@ == v@,
        ensures
            r < self.index().len(),
            self.index()[r as int].validator@ == v@,
    {
        let n = self.sorted.len();
        let mut i: usize = 0;
        while i < n
            invariant
                i <= n,
                n == self.index().len(),
                forall|j: int| 0 <= j < i ==> (#[trigger] self.index()[j]).validator@ != v@,
            decreases n - i,
        {
            if self.sorted[i].validator.eq_id(v) {
                return i;
            }
            i += 1;
        }
        proof {
            assert(false);
        }
        0
    }

    /// Removes a validator's allocation row and index row, if present, and
    /// returns the prior amount.
    fn remove_validator(&mut self, v: &Validator) -> (prior: Option<u64>)
        requires
            old(self).wf(),
        ensures
            final(self).wf(),
            prior == if old(self).has_row(v@) {
                Some(old(self).alloc_of(v@))
            } else {
                None::<u64>
            },
            !final(self).has_row(v@),
            forall|w: Seq<u8>|
                w != v@ ==> final(self).has_row(w) == old(self).has_row(w)
                    && final(self).alloc_of(w) == old(self).alloc_of(w),
            forall|a: u64, t: Seq<u8>, w: Seq<u8>|
                w != v@ ==> triple_in(final(self).index(), a, t, w) == triple_in(
                    old(self).index(),
                    a,
                    t,
                    w,
                ),
            forall|a: u64, t: Seq<u8>| !triple_in(final(self).index(), a, t, v@),
            sum_amounts(final(self).index()) == sum_amounts(old(self).index()) - old(
                self,
            ).alloc_of(v@),
            old(self).tags_valid() ==> final(self).tags_valid(),
            final(self).index() == index_remove_validator(old(self).index(), v@),
    {
        let row_pos = self.find_row(v);
        match row_pos {
            None => {
                proof {
                    self.lemma_no_row_no_entry(v@);
                    assert forall|j: int|
                        0 <= j < self.index().len() implies (#[trigger] self.index()[j]).validator@
                        != v@ by {
                        if self.index()[j].validator@ == v@ {
                            assert(triple_in(
                                self.index(),
                                self.index()[j].amount,
                                self.index()[j].tag@,
                                v@,
                            ));
                        }
                    }
                    lemma_index_remove_absent(self.index(), v@);
                }
                None
            },
            Some(i) => {
                proof {
                    self.lemma_row_amount(i as int);
                    assert(self.has_entry(self.rows()[i as int].0@, self.rows()[i as int].1));
                }
                let prior_amount = self.allocations[i].1;
                let k = self.find_entry(v);
                let ghost ro = self.rows();
                let ghost io = self.index();
                proof {
                    // the index row at k carries the row's amount: it maps to
                    // some allocation row of v, and v has only one row
                    assert(self.has_row_with(io[k as int].validator@, io[k as int].amount));
                    let j = choose|j: int|
                        0 <= j < ro.len() && ro[j].0@ == io[k as int].validator@ && ro[j].1 == io[
                            k as int
                        ].amount;
                    if j != i as int {
                        assert(ro[j].0@ == ro[i as int].0@);
                    }
                    assert(io[k as int].amount == prior_amount);
                    ro.remove_ensures(i as int);
                    io.remove_ensures(k as int);
                    lemma_sum_amounts_remove(io, k as int);
                    lemma_index_remove_at(io, v@, k as int);
                }
                self.allocations.remove(i);
                self.sorted.remove(k);
                proof {
                    let rf = self.rows();
                    let iff = self.index();
                    // no row of v survives
                    assert forall|x: int| 0 <= x < rf.len() implies (#[trigger] rf[x]).0@ != v@ by {
                        if x < i as int {
                            assert(rf[x] == ro[x]);
                            assert(ro[x].0@ != ro[i as int].0@);
                        } else {
                            assert(rf[x] == ro[x + 1]);
                            assert(ro[i as int].0@ != ro[x + 1].0@);
                        }
                    }
                    assert forall|x: int| 0 <= x < iff.len() implies (#[trigger] iff[x]).validator@
                        != v@ by {
                        if x < k as int {
                            assert(iff[x] == io[x]);
                            assert(io[x].validator@ != io[k as int].validator@);
                        } else {
                            assert(iff[x] == io[x + 1]);
                            assert(io[k as int].validator@ != io[x + 1].validator@);
                        }
                    }
                    // well-formedness survives removal on both sides
                    assert forall|x: int, y: int|
                        0 <= x < y < iff.len() implies entry_key_lt(
                        #[trigger] iff[x],
                        #[trigger] iff[y],
                    ) && iff[x].validator@ != iff[y].validator@ by {
                        let xo = if x < k as int {
                            x
                        } else {
                            x + 1
                        };
                        let yo = if y < k as int {
                            y
                        } else {
                            y + 1
                        };
                        assert(iff[x] == io[xo] && iff[y] == io[yo]);
                        assert(entry_key_lt(io[xo], io[yo]));
                    }
                    assert forall|x: int, y: int|
                        0 <= x < y < rf.len() implies (#[trigger] rf[x]).0@ != (
                    #[trigger] rf[y]).0@ by {
                        let xo = if x < i as int {
                            x
                        } else {
                            x + 1
                        };
                        let yo = if y < i as int {
                            y
                        } else {
                            y + 1
                        };
                        assert(rf[x] == ro[xo] && rf[y] == ro[yo]);
                    }
                    assert forall|x: int| 0 <= x < rf.len() implies (#[trigger] rf[x]).1 > 0 by {
                        let xo = if x < i as int {
                            x
                        } else {
                            x + 1
                        };
                        assert(rf[x] == ro[xo]);
                    }
                    // correspondence both ways
                    assert forall|x: int|
                        0 <= x < iff.len() implies self.has_row_with(
                        (#[trigger] iff[x]).validator@,
                        iff[x].amount,
                    ) by {
                        let xo = if x < k as int {
                            x
                        } else {
                            x + 1
                        };
                        assert(iff[x] == io[xo]);
                        let w = io[xo].validator@;
                        let a = io[xo].amount;
                        let j = choose|j: int|
                            0 <= j < ro.len() && ro[j].0@ == w && ro[j].1 == a;
                        assert(j != i as int);
                        if j < i as int {
                            assert(rf[j] == ro[j]);
                        } else {
                            assert(rf[j - 1] == ro[j]);
                        }
                    }
                    assert forall|x: int|
                        0 <= x < rf.len() implies self.has_entry(
                        (#[trigger] rf[x]).0@,
                        rf[x].1,
                    ) by {
                        let xo = if x < i as int {
                            x
                        } else {
                            x + 1
                        };
                        assert(rf[x] == ro[xo]);
                        let w = ro[xo].0@;
                        let a = ro[xo].1;
                        assert(exists|m: int|
                            0 <= m < io.len() && io[m].validator@ == w && io[m].amount == a);
                        let m = choose|m: int|
                            0 <= m < io.len() && io[m].validator@ == w && io[m].amount == a;
                        assert(m != k as int);
                        if m < k as int {
                            assert(iff[m] == io[m]);
                        } else {
                            assert(iff[m - 1] == io[m]);
                        }
                    }
                    // rows of other validators are untouched
                    assert forall|w: Seq<u8>|
                        w != v@ implies self.has_row(w) == old(self).has_row(w) && self.alloc_of(
                        w,
                    ) == old(self).alloc_of(w) by {
                        if old(self).has_row(w) {
                            let j = choose|j: int| 0 <= j < ro.len() && ro[j].0@ == w;
                            assert(j != i as int);
                            if j < i as int {
                                assert(rf[j] == ro[j]);
                                assert(rf[j].0@ == w);
                            } else {
                                assert(rf[j - 1] == ro[j]);
                                assert(rf[j - 1].0@ == w);
                            }
                            assert(self.has_row(w));
                            let jn = choose|j: int| 0 <= j < rf.len() && rf[j].0@ == w;
                            let jno = if jn < i as int {
                                jn
                            } else {
                                jn + 1
                            };
                            assert(rf[jn] == ro[jno]);
                            let jo = choose|j: int| 0 <= j < ro.len() && ro[j].0@ == w;
                            if jo != jno {
                                assert(ro[jo].0@ == ro[jno].0@);
                                if jo < jno {
                                    assert(ro[jo].0@ != ro[jno].0@);
                                } else {
                                    assert(ro[jno].0@ != ro[jo].0@);
                                }
                            }
                        } else {
                            if self.has_row(w) {
                                let jn = choose|j: int| 0 <= j < rf.len() && rf[j].0@ == w;
                                let jno = if jn < i as int {
                                    jn
                                } else {
                                    jn + 1
                                };
                                assert(rf[jn] == ro[jno]);
                                assert(old(self).has_row(w));
                            }
                        }
                    }
                    // index rows of other validators are untouched
                    assert forall|a: u64, t: Seq<u8>, w: Seq<u8>|
                        w != v@ implies triple_in(self.index(), a, t, w) == triple_in(
                        io,
                        a,
                        t,
                        w,
                    ) by {
                        if triple_in(io, a, t, w) {
                            let m = choose|m: int|
                                0 <= m < io.len() && io[m].amount == a && io[m].tag@ == t && io[
                                    m
                                ].validator@ == w;
                            assert(m != k as int);
                            if m < k as int {
                                assert(iff[m] == io[m]);
                            } else {
                                assert(iff[m - 1] == io[m]);
                            }
                            assert(triple_in(iff, a, t, w));
                        }
                        if triple_in(iff, a, t, w) {
                            let m = choose|m: int|
                                0 <= m < iff.len() && iff[m].amount == a && iff[m].tag@ == t
                                    && iff[m].validator@ == w;
                            let mo = if m < k as int {
                                m
                            } else {
                                m + 1
                            };
                            assert(iff[m] == io[mo]);
                            assert(triple_in(io, a, t, w));
                        }
                    }
                    // tags survive
                    if old(self).tags_valid() {
                        assert forall|x: int|
                            0 <= x < iff.len() implies (#[trigger] iff[x]).tag@ == spec_tag(
                            iff[x].amount,
                            iff[x].validator,
                        ) by {
                            let xo = if x < k as int {
                                x
                            } else {
                                x + 1
                            };
                            assert(iff[x] == io[xo]);
                        }
                    }
                }
                Some(prior_amount)
            },
        }
    }

    /// Finds where a fresh index row belongs: the first position whose row
    /// sorts after it.
    fn find_insert_pos(&self, e: &IndexEntry) -> (p: usize)
        ensures
            p <= self.index().len(),
            forall|q: int| 0 <= q < p ==> !entry_key_lt(*e, #[trigger] self.index()[q]),
            p < self.index().len() ==> entry_key_lt(*e, self.index()[p as int]),
    {
        let n = self.sorted.len();
        let mut p: usize = 0;
        while p < n
            invariant
                p <= n,
                n == self.index().len(),
                forall|q: int| 0 <= q < p ==> !entry_key_lt(*e, #[trigger] self.index()[q]),
            decreases n - p,
        {
            if entry_less(e, &self.sorted[p]) {
                return p;
            }
            p += 1;
        }
        p
    }

    /// Writes a fresh allocation row and its index row for a validator that
    /// has none.
    fn insert_allocation(&mut self, v: Validator, amount: u64)
        requires
            old(self).wf(),
            !old(self).has_row(v@),
            amount > 0,
        ensures
            final(self).wf(),
            final(self).has_row(v@),
            final(self).alloc_of(v@) == amount,
            forall|w: Seq<u8>|
                w != v@ ==> final(self).has_row(w) == old(self).has_row(w)
                    && final(self).alloc_of(w) == old(self).alloc_of(w),
            forall|a: u64, t: Seq<u8>, w: Seq<u8>|
                w != v@ ==> triple_in(final(self).index(), a, t, w) == triple_in(
                    old(self).index(),
                    a,
                    t,
                    w,
                ),
            forall|a: u64, t: Seq<u8>|
                triple_in(final(self).index(), a, t, v@) == (a == amount && t == spec_tag(
                    amount,
                    v,
                )),
            sum_amounts(final(self).index()) == sum_amounts(old(self).index()) + amount,
            old(self).tags_valid() ==> final(self).tags_valid(),
            final(self).index() == index_insert_sorted(
                old(self).index(),
                IndexEntry { amount, tag: tag_bytes(amount, v), validator: v },
            ),
    {
        proof {
            self.lemma_no_row_no_entry(v@);
        }
        let tag = compute_tag(amount, &v);
        proof {
            assert(exists|arr: [u8; 16]| arr@ == spec_tag(amount, v)) by {
                assert(tag@ == spec_tag(amount, v));
            }
            assert(tag_bytes(amount, v)@ == spec_tag(amount, v));
            assert(tag =~= tag_bytes(amount, v));
        }
        let e = IndexEntry { amount, tag, validator: v };
        proof {
            assert(e =~= (IndexEntry { amount, tag: tag_bytes(amount, v), validator: v }));
        }
        let ghost ro = self.rows();
        let ghost io = self.index();
        proof {
            // no index row belongs to v
            assert forall|q: int| 0 <= q < io.len() implies (#[trigger] io[q]).validator@ != v@ by {
                if io[q].validator@ == v@ {
                    assert(triple_in(io, io[q].amount, io[q].tag@, v@));
                }
            }
        }
        let p = self.find_insert_pos(&e);
        proof {
            assert forall|q: int| 0 <= q < p implies entry_key_lt(#[trigger] io[q], e) by {
                if !entry_key_lt(io[q], e) {
                    lemma_entry_key_total(e, io[q]);
                }
            }
            assert forall|q: int| p <= q < io.len() implies entry_key_lt(e, #[trigger] io[q]) by {
                if q > p {
                    lemma_entry_key_trans(e, io[p as int], io[q]);
                }
            }
            io.insert_ensures(p as int, e);
            lemma_sum_amounts_insert(io, p as int, e);
            lemma_index_insert_at(io, e, p as int);
        }
        self.sorted.insert(p, e);
        self.allocations.push((v, amount));
        proof {
            let rf = self.rows();
            let iff = self.index();
            assert(rf == ro.push((v, amount)));
            assert(iff == io.insert(p as int, e));
            assert(rf[ro.len() as int] == (v, amount));
            assert(iff[p as int] == e);
            // a position in the new index maps back to the old index or to e
            assert forall|x: int|
                0 <= x < iff.len() && x != p implies #[trigger] iff[x] == io[
                if x < p {
                    x
                } else {
                    x - 1
                }
            ] by {
                if x < p {
                } else {
                    assert(iff[(x - 1) + 1] == io[x - 1]);
                }
            }
            // strict order
            assert forall|x: int, y: int|
                0 <= x < y < iff.len() implies entry_key_lt(#[trigger] iff[x], #[trigger] iff[y])
                    && iff[x].validator@ != iff[y].validator@ by {
                if x == p {
                    assert(iff[y] == io[y - 1] && y - 1 >= p);
                    assert(entry_key_lt(e, io[y - 1]));
                } else if y == p {
                    assert(iff[x] == io[x] && x < p);
                    assert(entry_key_lt(io[x], e));
                } else {
                    let xo = if x < p {
                        x
                    } else {
                        x - 1
                    };
                    let yo = if y < p {
                        y
                    } else {
                        y - 1
                    };
                    assert(iff[x] == io[xo] && iff[y] == io[yo]);
                    assert(entry_key_lt(io[xo], io[yo]));
                }
            }
            // row uniqueness and positivity
            assert forall|x: int, y: int|
                0 <= x < y < rf.len() implies (#[trigger] rf[x]).0@ != (#[trigger] rf[y]).0@ by {
                if y == ro.len() {
                    assert(rf[x] == ro[x]);
                    if ro[x].0@ == v@ {
                        assert(old(self).has_row(v@));
                    }
                } else {
                    assert(rf[x] == ro[x] && rf[y] == ro[y]);
                }
            }
            assert forall|x: int| 0 <= x < rf.len() implies (#[trigger] rf[x]).1 > 0 by {
                if x < ro.len() {
                    assert(rf[x] == ro[x]);
                }
            }
            // correspondence both ways
            assert forall|x: int|
                0 <= x < iff.len() implies self.has_row_with(
                (#[trigger] iff[x]).validator@,
                iff[x].amount,
            ) by {
                if x == p {
                    assert(rf[ro.len() as int].0@ == v@ && rf[ro.len() as int].1 == amount);
                } else {
                    let xo = if x < p {
                        x
                    } else {
                        x - 1
                    };
                    assert(iff[x] == io[xo]);
                    let j = choose|j: int|
                        0 <= j < ro.len() && ro[j].0@ == io[xo].validator@ && ro[j].1 == io[
                            xo
                        ].amount;
                    assert(rf[j] == ro[j]);
                }
            }
            assert forall|x: int|
                0 <= x < rf.len() implies self.has_entry((#[trigger] rf[x]).0@, rf[x].1) by {
                if x == ro.len() {
                    assert(iff[p as int].validator@ == v@ && iff[p as int].amount == amount);
                } else {
                    assert(rf[x] == ro[x]);
                    let m = choose|m: int|
                        0 <= m < io.len() && io[m].validator@ == ro[x].0@ && io[m].amount == ro[
                            x
                        ].1;
                    let mn = if m < p {
                        m
                    } else {
                        m + 1
                    };
                    assert(iff[mn] == io[m]);
                }
            }
            // the new row is v's only row
            assert(self.has_row(v@));
            assert forall|j: int| 0 <= j < rf.len() && rf[j].0@ == v@ implies j == ro.len() by {
                if j < ro.len() {
                    assert(rf[j] == ro[j]);
                    assert(old(self).has_row(v@));
                }
            }
            assert(self.alloc_of(v@) == amount);
            // other validators' rows are untouched
            assert forall|w: Seq<u8>|
                w != v@ implies self.has_row(w) == old(self).has_row(w) && self.alloc_of(w) == old(
                self,
            ).alloc_of(w) by {
                if old(self).has_row(w) {
                    let j = choose|j: int| 0 <= j < ro.len() && ro[j].0@ == w;
                    assert(rf[j] == ro[j]);
                    assert(self.has_row(w));
                    let jn = choose|j: int| 0 <= j < rf.len() && rf[j].0@ == w;
                    assert(jn != ro.len());
                    assert(rf[jn] == ro[jn]);
                    let jo = choose|j: int| 0 <= j < ro.len() && ro[j].0@ == w;
                    if jo != jn {
                        if jo < jn {
                            assert(ro[jo].0@ != ro[jn].0@);
                        } else {
                            assert(ro[jn].0@ != ro[jo].0@);
                        }
                    }
                } else {
                    if self.has_row(w) {
                        let jn = choose|j: int| 0 <= j < rf.len() && rf[j].0@ == w;
                        assert(jn != ro.len());
                        assert(rf[jn] == ro[jn]);
                        assert(old(self).has_row(w));
                    }
                }
            }
            // triples of other validators are untouched
            assert forall|a: u64, t: Seq<u8>, w: Seq<u8>|
                w != v@ implies triple_in(iff, a, t, w) == triple_in(io, a, t, w) by {
                if triple_in(io, a, t, w) {
                    let m = choose|m: int|
                        0 <= m < io.len() && io[m].amount == a && io[m].tag@ == t && io[
                            m
                        ].validator@ == w;
                    let mn = if m < p {
                        m
                    } else {
                        m + 1
                    };
                    assert(iff[mn] == io[m]);
                    assert(triple_in(iff, a, t, w));
                }
                if triple_in(iff, a, t, w) {
                    let m = choose|m: int|
                        0 <= m < iff.len() && iff[m].amount == a && iff[m].tag@ == t && iff[
                            m
                        ].validator@ == w;
                    assert(m != p);
                    let mo = if m < p {
                        m
                    } else {
                        m - 1
                    };
                    assert(iff[m] == io[mo]);
                    assert(triple_in(io, a, t, w));
                }
            }
            // v's triples are exactly the fresh row
            assert forall|a: u64, t: Seq<u8>|
                triple_in(iff, a, t, v@) == (a == amount && t == spec_tag(amount, v)) by {
                if triple_in(iff, a, t, v@) {
                    let m = choose|m: int|
                        0 <= m < iff.len() && iff[m].amount == a && iff[m].tag@ == t && iff[
                            m
                        ].validator@ == v@;
                    if m != p {
                        let mo = if m < p {
                            m
                        } else {
                            m - 1
                        };
                        assert(iff[m] == io[mo]);
                        assert(triple_in(io, a, t, v@));
                    }
                }
                if a == amount && t == spec_tag(amount, v) {
                    assert(iff[p as int].amount == a && iff[p as int].tag@ == t && iff[
                        p as int
                    ].validator@ == v@);
                }
            }
            // tags stay the digests of their own key material
            if old(self).tags_valid() {
                assert forall|x: int|
                    0 <= x < iff.len() implies (#[trigger] iff[x]).tag@ == spec_tag(
                    iff[x].amount,
                    iff[x].validator,
                ) by {
                    if x != p {
                        let xo = if x < p {
                            x
                        } else {
                            x - 1
                        };
                        assert(iff[x] == io[xo]);
                    }
                }
            }
        }
    }

    /// Writes a validator's allocation: removes the old sorted-index row (if
    /// any), rewrites the allocation row, and writes a fresh sorted-index row
    /// unless the amount is zero. Returns whether a prior nonzero allocation
    /// existed.
    pub fn set_allocation(&mut self, v: Validator, amount: u64) -> (had: bool)
        requires
            old(self).wf(),
        ensures
            final(self).wf(),
            had == old(self).has_row(v@),
            final(self).has_row(v@) == (amount != 0),
            final(self).alloc_of(v@) == amount,
            forall|w: Seq<u8>|
                w != v@ ==> final(self).has_row(w) == old(self).has_row(w)
                    && final(self).alloc_of(w) == old(self).alloc_of(w),
            forall|a: u64, t: Seq<u8>, w: Seq<u8>|
                w != v@ ==> triple_in(final(self).index(), a, t, w) == triple_in(
                    old(self).index(),
                    a,
                    t,
                    w,
                ),
            forall|a: u64, t: Seq<u8>|
                triple_in(final(self).index(), a, t, v@) == (amount != 0 && a == amount && t
                    == spec_tag(amount, v)),
            sum_amounts(final(self).index()) == sum_amounts(old(self).index()) - old(
                self,
            ).alloc_of(v@) + amount,
            old(self).tags_valid() ==> final(self).tags_valid(),
            final(self).index() == spec_set_index(old(self).index(), v, amount),
    {
        let prior = self.remove_validator(&v);
        if amount != 0 {
            self.insert_allocation(v, amount);
        }
        prior.is_some()
    }

    /// How many rows the sorted allocation index holds.
    pub fn num_index_rows(&self) -> (n: usize)
        ensures
            n == self.index().len(),
    {
        self.sorted.len()
    }

    /// Reads one row of the sorted allocation index.
    pub fn index_row(&self, i: usize) -> (e: IndexEntry)
        requires
            i < self.index().len(),
        ensures
            e == self.index()[i as int],
    {
        self.sorted[i]
    }

    /// Amounts never grow along the index.
    pub proof fn lemma_amounts_nonincreasing(&self)
        requires
            self.wf(),
        ensures
            forall|i: int, j: int|
                0 <= i <= j < self.index().len() ==> (#[trigger] self.index()[i]).amount >= (
                #[trigger] self.index()[j]).amount,
    {
        assert forall|i: int, j: int|
            0 <= i <= j < self.index().len() implies (#[trigger] self.index()[i]).amount >= (
        #[trigger] self.index()[j]).amount by {
            if i < j {
                assert(entry_key_lt(self.index()[i], self.index()[j]));
            }
        }
    }

    /// The descending-stake run the iterator walks: every row before the
    /// cutoff holds at least the floor amount.
    pub fn iterate_by_stake_desc(&self, floor_amount: u64) -> (r: Vec<(Validator, u64)>)
        requires
            self.wf(),
        ensures
            r@.len() == cutoff(self.index(), floor_amount),
            forall|i: int|
                0 <= i < r@.len() ==> (#[trigger] r@[i]).0 == self.index()[i].validator && r@[
                    i
                ].1 == self.index()[i].amount,
    {
        proof {
            lemma_cutoff_properties(self.index(), floor_amount);
        }
        let n = self.sorted.len();
        let mut r: Vec<(Validator, u64)> = Vec::new();
        let mut i: usize = 0;
        while i < n
            invariant
                i <= n,
                n == self.index().len(),
                self.wf(),
                r@.len() == i,
                forall|j: int| 0 <= j < i ==> (#[trigger] self.index()[j]).amount >= floor_amount,
                forall|j: int|
                    0 <= j < i ==> (#[trigger] r@[j]).0 == self.index()[j].validator && r@[j].1
                        == self.index()[j].amount,
            decreases n - i,
        {
            let entry = self.sorted[i];
            if entry.amount < floor_amount {
                proof {
                    lemma_cutoff_is_first(self.index(), floor_amount, i as int);
                }
                return r;
            }
            r.push((entry.validator, entry.amount));
            i += 1;
        }
        proof {
            lemma_cutoff_is_first(self.index(), floor_amount, n as int);
        }
        r
    }

    /// The sorted allocation index holds a row for a validator with an
    /// amount exactly when the allocation rows do, and only nonzero amounts
    /// appear: the two structures mirror each other.
    pub proof fn lemma_index_matches_allocations(&self, v: Seq<u8>, amount: u64)
        requires
            self.wf(),
        ensures
            self.has_entry(v, amount) == (self.has_row(v) && self.alloc_of(v) == amount && amount
                > 0),
    {
        if self.has_entry(v, amount) {
            let i = choose|i: int|
                0 <= i < self.index().len() && self.index()[i].validator@ == v && self.index()[
                    i
                ].amount == amount;
            assert(self.has_row_with(v, amount));
            let j = choose|j: int|
                0 <= j < self.rows().len() && self.rows()[j].0@ == v && self.rows()[j].1 == amount;
            self.lemma_row_amount(j);
        }
        if self.has_row(v) && self.alloc_of(v) == amount && amount > 0 {
            let j = choose|j: int| 0 <= j < self.rows().len() && self.rows()[j].0@ == v;
            self.lemma_row_amount(j);
            assert(self.has_entry(self.rows()[j].0@, self.rows()[j].1));
        }
    }

    /// Returns a validator's allocation row, if any.
    pub fn allocation(&self, v: &Validator) -> (r: Option<u64>)
        requires
            self.wf(),
        ensures
            r == if self.has_row(v@) {
                Some(self.alloc_of(v@))
            } else {
                None::<u64>
            },
    {
        let amount = self.get_allocation(v);
        if amount == 0 {
            None
        } else {
            Some(amount)
        }
    }
}

} // verus!

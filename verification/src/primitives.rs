//! Shared primitive types and the key-share amortization helpers.

use vstd::prelude::*;

verus! {

/// The maximum amount of key shares per set.
pub const MAX_KEY_SHARES_PER_SET: u32 = 150;

/// The type used to identify a specific session of validators.
#[derive(Clone, Copy, PartialEq, Eq, Structural, Hash, Debug)]
pub struct Session(pub u32);

/// A validator's fixed-size 32-byte public identifier.
#[derive(Clone, Copy, PartialEq, Eq, Debug)]
pub struct Validator(pub [u8; 32]);

impl View for Validator {
    type V = Seq<u8>;

    open spec fn view(&self) -> Seq<u8> {
        self.0@
    }
}

impl Validator {
    /// Whether two validator identifiers hold the same 32 bytes.
    pub fn eq_id(&self, other: &Validator) -> (r: bool)
        ensures
            r == (self@ == other@),
    {
        let mut i: usize = 0;
        while i < 32
            invariant
                i <= 32,
                forall|j: int| 0 <= j < i ==> self.0@[j] == other.0@[j],
            decreases 32 - i,
        {
            if self.0[i] != other.0[i] {
                assert(self@ != other@);
                return false;
            }
            i += 1;
        }
        proof {
            assert(self@ =~= other@);
        }
        true
    }
}

/// A 32-byte account address.
#[derive(Clone, Copy, PartialEq, Eq, Debug)]
pub struct WikiblocksAddress(pub [u8; 32]);

impl WikiblocksAddress {
    /// Wraps a raw 32-byte key as an address.
    pub fn new(key: [u8; 32]) -> (r: WikiblocksAddress)
        ensures
            r.0@ == key@,
    {
        WikiblocksAddress(key)
    }
}

/// The address a runtime module owns: the module's name, zero-padded to 32
/// bytes. The name must be at most 32 bytes and hold a nonzero byte, so that
/// the result is never the all-zero (identity) key.
pub fn system_address(pallet: &[u8]) -> (r: WikiblocksAddress)
    requires
        pallet@.len() <= 32,
        exists|i: int| 0 <= i < pallet@.len() && pallet@[i] != 0,
    ensures
        forall|i: int| 0 <= i < pallet@.len() ==> r.0@[i] == pallet@[i],
        forall|i: int| pallet@.len() <= i < 32 ==> r.0@[i] == 0,
{
    let mut address = [0u8; 32];
    let n = pallet.len();
    let mut i: usize = 0;
    while i < n
        invariant
            i <= n,
            n == pallet@.len() <= 32,
            address@.len() == 32,
            forall|j: int| 0 <= j < i ==> address@[j] == pallet@[j],
            forall|j: int| i <= j < 32 ==> address@[j] == 0,
        decreases n - i,
    {
        address[i] = pallet[i];
        i += 1;
    }
    WikiblocksAddress(address)
}

/// Lexicographically reverses a given byte array: each byte is replaced by
/// its bitwise complement, so that ascending lexicographic order on the
/// results is descending order on the inputs.
pub fn reverse_lexicographic_order<const N: usize>(bytes: [u8; N]) -> (res: [u8; N])
    ensures
        res@.len() == N,
        forall|i: int| 0 <= i < N ==> res@[i] == !bytes@[i],
{
    let mut res = [0u8; N];
    let mut i: usize = 0;
    while i < N
        invariant
            i <= N,
            res@.len() == N,
            forall|j: int| 0 <= j < i ==> res@[j] == !bytes@[j],
        decreases N - i,
    {
        res[i] = !bytes[i];
        i += 1;
    }
    res
}

/// Copies a vector of plain values.
pub fn copy_vec<T: Copy>(v: &Vec<T>) -> (r: Vec<T>)
    ensures
        r@ == v@,
{
    let n = v.len();
    let mut r: Vec<T> = Vec::new();
    let mut i: usize = 0;
    while i < n
        invariant
            i <= n,
            n == v@.len(),
            r@ == v@.take(i as int),
        decreases n - i,
    {
        r.push(v[i]);
        proof {
            assert(r@ =~= v@.take(i as int + 1));
        }
        i += 1;
    }
    proof {
        assert(v@.take(n as int) =~= v@);
    }
    r
}

/// `a - b`, floored at zero.
pub open spec fn sat_sub(a: int, b: int) -> int {
    if a > b {
        a - b
    } else {
        0
    }
}

/// Sum of the key shares of a weighted validator list.
pub open spec fn sum_shares(s: Seq<(Validator, u64)>) -> int
    decreases s.len(),
{
    if s.len() == 0 {
        0
    } else {
        sum_shares(s.drop_last()) + s.last().1
    }
}

/// How many round-robin decrements entry `j` of a list of length `len`
/// receives when `excess` decrements walk backward from the end of the list,
/// one entry per step, wrapping around.
pub open spec fn round_robin_decrements(excess: int, len: int, j: int) -> int {
    excess / len + if len - 1 - j < excess % len {
        1int
    } else {
        0int
    }
}

/// Sum of `round_robin_decrements(excess, len, j)` over `j < k`.
pub open spec fn round_robin_sum(excess: int, len: int, k: int) -> int
    decreases k,
{
    if k <= 0 {
        0
    } else {
        round_robin_sum(excess, len, k - 1) + round_robin_decrements(excess, len, k - 1)
    }
}

/// A prefix of a nonnegative-share list never sums to more than the whole.
pub proof fn lemma_sum_shares_take_le(s: Seq<(Validator, u64)>, i: int)
    requires
        0 <= i <= s.len(),
    ensures
        sum_shares(s.take(i)) <= sum_shares(s),
    decreases s.len() - i,
{
    if i == s.len() {
        assert(s.take(i) =~= s);
    } else {
        lemma_sum_shares_take_le(s, i + 1);
        assert(s.take(i + 1).drop_last() =~= s.take(i));
        assert(sum_shares(s.take(i + 1)) == sum_shares(s.take(i)) + s[i].1);
    }
}

/// How quotient and remainder move when the dividend grows by one.
proof fn lemma_div_mod_succ(i: int, len: int)
    requires
        0 <= i,
        0 < len,
    ensures
        i % len == len - 1 ==> (i + 1) / len == i / len + 1 && (i + 1) % len == 0,
        i % len < len - 1 ==> (i + 1) / len == i / len && (i + 1) % len == i % len + 1,
        0 <= i % len < len,
        0 <= i / len,
{
    vstd::arithmetic::div_mod::lemma_fundamental_div_mod(i, len);
    vstd::arithmetic::div_mod::lemma_mod_bound(i, len);
    vstd::arithmetic::div_mod::lemma_div_pos_is_pos(i, len);
    let q = i / len;
    let r = i % len;
    assert(len * q == q * len) by (nonlinear_arith);
    if r == len - 1 {
        assert(i + 1 == len * q + len);
        assert(len * q + len == (q + 1) * len) by (nonlinear_arith);
        vstd::arithmetic::div_mod::lemma_fundamental_div_mod_converse(i + 1, len, q + 1, 0);
    } else {
        assert(i + 1 == q * len + (r + 1));
        vstd::arithmetic::div_mod::lemma_fundamental_div_mod_converse(i + 1, len, q, r + 1);
    }
}

/// Each entry's decrement count never shrinks as the walk continues.
proof fn lemma_round_robin_monotone(i: int, e: int, len: int, j: int)
    requires
        0 <= i <= e,
        0 < len,
        0 <= j < len,
    ensures
        round_robin_decrements(i, len, j) <= round_robin_decrements(e, len, j),
    decreases e - i,
{
    if i < e {
        lemma_div_mod_succ(i, len);
        lemma_round_robin_monotone(i + 1, e, len, j);
    }
}

/// The decrement counts over a whole list of length `len` sum to `excess`.
proof fn lemma_round_robin_sum_all(excess: int, len: int)
    requires
        0 <= excess,
        0 < len,
    ensures
        round_robin_sum(excess, len, len) == excess,
{
    vstd::arithmetic::div_mod::lemma_fundamental_div_mod(excess, len);
    vstd::arithmetic::div_mod::lemma_mod_bound(excess, len);
    lemma_round_robin_sum_partial(excess, len, len);
}

/// Closed form for a partial sum of decrement counts.
proof fn lemma_round_robin_sum_partial(excess: int, len: int, k: int)
    requires
        0 <= excess,
        0 < len,
        0 <= k <= len,
    ensures
        round_robin_sum(excess, len, k) == k * (excess / len) + if k - (len - excess % len)
            > 0 {
            k - (len - excess % len)
        } else {
            0int
        },
    decreases k,
{
    vstd::arithmetic::div_mod::lemma_mod_bound(excess, len);
    vstd::arithmetic::div_mod::lemma_div_pos_is_pos(excess, len);
    if k > 0 {
        lemma_round_robin_sum_partial(excess, len, k - 1);
        assert((k - 1) * (excess / len) + excess / len == k * (excess / len)) by (nonlinear_arith);
        let d = len - excess % len;
        assert(round_robin_sum(excess, len, k) == round_robin_sum(excess, len, k - 1)
            + round_robin_decrements(excess, len, k - 1));
        assert(round_robin_decrements(excess, len, k - 1) == excess / len + if len - k < excess
            % len {
            1int
        } else {
            0int
        });
        if k - d > 0 {
            assert(len - k < excess % len);
        } else {
            assert(!(len - k < excess % len));
        }
    } else {
        assert(round_robin_sum(excess, len, 0) == 0);
        assert(0 * (excess / len) == 0) by (nonlinear_arith);
    }
}

/// For a set of validators whose key shares may exceed the maximum, reduce
/// until they equal the maximum.
///
/// Reduction occurs by reducing each validator in a reverse round-robin: the
/// excess is walked off one share at a time starting from the last (lowest
/// ranked) entry, wrapping backward through the list.
pub fn amortize_excess_key_shares(validators: &mut Vec<(Validator, u64)>)
    requires
        sum_shares(old(validators)@) <= u64::MAX,
        forall|j: int|
            0 <= j < old(validators)@.len() ==> round_robin_decrements(
                sat_sub(sum_shares(old(validators)@), MAX_KEY_SHARES_PER_SET as int),
                old(validators)@.len() as int,
                j,
            ) <= old(validators)@[j].1,
    ensures
        final(validators)@.len() == old(validators)@.len(),
        forall|j: int|
            0 <= j < old(validators)@.len() ==> final(validators)@[j].0 == old(validators)@[j].0,
        old(validators)@.len() > 0 ==> forall|j: int|
            0 <= j < old(validators)@.len() ==> final(validators)@[j].1 == old(validators)@[j].1
                - round_robin_decrements(
                sat_sub(sum_shares(old(validators)@), MAX_KEY_SHARES_PER_SET as int),
                old(validators)@.len() as int,
                j,
            ),
        old(validators)@.len() == 0 ==> final(validators)@ == old(validators)@,
        sum_shares(final(validators)@) == sum_shares(old(validators)@) - sat_sub(
            sum_shares(old(validators)@),
            MAX_KEY_SHARES_PER_SET as int,
        ),
{
    let ghost orig = validators@;
    let len = validators.len();
    let mut total: u64 = 0;
    let mut t: usize = 0;
    while t < len
        invariant
            t <= len,
            len == validators@.len(),
            validators@ == orig,
            sum_shares(orig) <= u64::MAX,
            total == sum_shares(orig.take(t as int)),
        decreases len - t,
    {
        proof {
            lemma_sum_shares_take_le(orig, t + 1);
            assert(orig.take(t + 1).drop_last() =~= orig.take(t as int));
        }
        total = total + validators[t].1;
        t += 1;
    }
    proof {
        assert(orig.take(len as int) =~= orig);
    }
    let excess: u64 = if total > MAX_KEY_SHARES_PER_SET as u64 {
        total - MAX_KEY_SHARES_PER_SET as u64
    } else {
        0
    };
    if len == 0 {
        proof {
            lemma_sum_shares_drop(orig, validators@, excess as int);
        }
        return ;
    }
    let ghost e = excess as int;
    proof {
        assert forall|j: int| 0 <= j < len implies round_robin_decrements(e, len as int, j)
            <= orig[j].1 by {
            assert(round_robin_decrements(
                sat_sub(sum_shares(orig), MAX_KEY_SHARES_PER_SET as int),
                orig.len() as int,
                j,
            ) <= orig[j].1);
        }
    }
    let mut i: u64 = 0;
    while i < excess
        invariant
            0 <= i <= excess,
            e == excess as int,
            len == validators@.len(),
            0 < len,
            forall|j: int| 0 <= j < len ==> validators@[j].0 == orig[j].0,
            forall|j: int|
                0 <= j < len ==> validators@[j].1 == orig[j].1 - round_robin_decrements(
                    i as int,
                    len as int,
                    j,
                ),
            forall|j: int|
                0 <= j < len ==> round_robin_decrements(e, len as int, j) <= orig[j].1,
        decreases excess - i,
    {
        proof {
            lemma_div_mod_succ(i as int, len as int);
        }
        let j = len - 1 - ((i % (len as u64)) as usize);
        proof {
            lemma_round_robin_monotone(i as int + 1, e, len as int, j as int);
            assert(round_robin_decrements(i as int + 1, len as int, j as int)
                == round_robin_decrements(i as int, len as int, j as int) + 1);
        }
        let mut pair = validators[j];
        pair.1 = pair.1 - 1;
        validators.set(j, pair);
        proof {
            assert forall|q: int|
                0 <= q < len implies validators@[q].1 == orig[q].1 - round_robin_decrements(
                i as int + 1,
                len as int,
                q,
            ) by {
                if q != j as int {
                    assert(round_robin_decrements(i as int + 1, len as int, q)
                        == round_robin_decrements(i as int, len as int, q));
                }
            }
        }
        i += 1;
    }
    proof {
        lemma_sum_shares_drop(orig, validators@, e);
    }
}

/// If every entry drops by its decrement count, the sum drops by the total
/// decrement count.
proof fn lemma_sum_shares_drop(a: Seq<(Validator, u64)>, b: Seq<(Validator, u64)>, e: int)
    requires
        0 <= e,
        a.len() == b.len(),
        a.len() > 0 ==> forall|j: int|
            0 <= j < a.len() ==> b[j].1 == a[j].1 - round_robin_decrements(e, a.len() as int, j),
        a.len() == 0 ==> e == 0 && a == b,
    ensures
        sum_shares(b) == sum_shares(a) - e,
{
    if a.len() == 0 {
    } else {
        lemma_round_robin_sum_all(e, a.len() as int);
        lemma_sum_shares_drop_partial(a, b, e, a.len() as int);
        assert(a.take(a.len() as int) =~= a);
        assert(b.take(a.len() as int) =~= b);
    }
}

/// Partial-sum version of `lemma_sum_shares_drop`, over the first `k` entries.
proof fn lemma_sum_shares_drop_partial(a: Seq<(Validator, u64)>, b: Seq<(Validator, u64)>, e: int, k: int)
    requires
        0 <= e,
        a.len() == b.len(),
        0 < a.len(),
        0 <= k <= a.len(),
        forall|j: int|
            0 <= j < a.len() ==> b[j].1 == a[j].1 - round_robin_decrements(e, a.len() as int, j),
    ensures
        sum_shares(b.take(k)) == sum_shares(a.take(k)) - round_robin_sum(e, a.len() as int, k),
    decreases k,
{
    if k == 0 {
        assert(a.take(0) =~= Seq::<(Validator, u64)>::empty());
        assert(b.take(0) =~= Seq::<(Validator, u64)>::empty());
    } else {
        lemma_sum_shares_drop_partial(a, b, e, k - 1);
        assert(a.take(k).drop_last() =~= a.take(k - 1));
        assert(b.take(k).drop_last() =~= b.take(k - 1));
    }
    if k == a.len() {
        assert(a.take(k) =~= a);
        assert(b.take(k) =~= b);
    }
}

/// Returns the post-amortization key shares for the top validator.
///
/// When the accumulated key shares exceed the cap, the surplus is walked off
/// lowest-ranked-first, so the top validator loses at most the average
/// surplus per validator; this computes that lower estimate exactly.
pub fn post_amortization_key_shares_for_top_validator(
    validators: usize,
    top: u64,
    key_shares: u64,
) -> (r: u64)
    requires
        validators > 0,
        sat_sub(key_shares as int, MAX_KEY_SHARES_PER_SET as int) / (validators as int)
            <= top as int,
    ensures
        r == top as int - sat_sub(key_shares as int, MAX_KEY_SHARES_PER_SET as int) / (
        validators as int),
{
    let surplus: u64 = if key_shares > MAX_KEY_SHARES_PER_SET as u64 {
        key_shares - MAX_KEY_SHARES_PER_SET as u64
    } else {
        0
    };
    top - surplus / (validators as u64)
}

} // verus!

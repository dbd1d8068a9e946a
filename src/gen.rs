use crate::hash::{add64, digest, fresh_view, lemma_fresh_write_digest, SipHasher};
use vstd::arithmetic::div_mod::{lemma_div_is_ordered, lemma_fundamental_div_mod_converse};
use vstd::arithmetic::mul::lemma_mul_inequality;
use vstd::prelude::*;

verus! {

/// Why a search ends without a table.
#[derive(Clone, Copy, Debug, PartialEq, Eq, Structural)]
pub enum SearchError {
    /// The table size needed cannot be represented as a `usize`.
    TableSizeOverflow,
}

/// Seed of the candidate key sequence, added to the global key.
pub const SEED: u64 = 1138006940306161589;

/// Multiplier of the candidate key recurrence.
pub const MULTIPLIER: u64 = 4470274377298057907;

/// Increment of the candidate key recurrence.
pub const INC: u64 = 65537;

/// Multiplication modulo 2^64.
pub open spec fn mul64(x: u64, y: u64) -> u64 {
    ((x * y) % 0x1_0000_0000_0000_0000) as u64
}

/// The `t`-th candidate local key for the global key `g`.
pub open spec fn candidate_key(g: u64, t: nat) -> u64
    decreases t,
{
    if t == 0 {
        add64(SEED, g)
    } else {
        add64(mul64(candidate_key(g, (t - 1) as nat), MULTIPLIER), INC)
    }
}

/// The byte contents of a sequence of items.
pub open spec fn byte_seqs(items: Seq<Vec<u8>>) -> Seq<Seq<u8>> {
    items.map_values(|v: Vec<u8>| v@)
}

/// The bucket of `item` in a table of `ts` slots (a power of two) under keys `g`, `lk`.
pub open spec fn bucket_of(g: u64, lk: u64, item: Seq<u8>, ts: nat, c: nat, d: nat) -> nat {
    (digest(g, lk, item, c, d) & ((ts - 1) as u64)) as nat
}

/// The items that land in bucket `b`, in input order.
pub open spec fn members(
    items: Seq<Seq<u8>>,
    g: u64,
    lk: u64,
    ts: nat,
    c: nat,
    d: nat,
    b: nat,
) -> Seq<Seq<u8>>
    decreases items.len(),
{
    if items.len() == 0 {
        seq![]
    } else {
        let prev = members(items.drop_last(), g, lk, ts, c, d, b);
        if bucket_of(g, lk, items.last(), ts, c, d) == b {
            prev.push(items.last())
        } else {
            prev
        }
    }
}

/// The number of items beyond the first in each of the buckets `0..n`, summed.
pub open spec fn excess(items: Seq<Seq<u8>>, g: u64, lk: u64, ts: nat, c: nat, d: nat, n: nat) -> nat
    decreases n,
{
    if n == 0 {
        0
    } else {
        let k = members(items, g, lk, ts, c, d, (n - 1) as nat).len();
        excess(items, g, lk, ts, c, d, (n - 1) as nat) + if k > 0 {
            (k - 1) as nat
        } else {
            0
        }
    }
}

/// The number of collided items in a table of `ts` slots: the collision density is
/// this number divided by `ts`.
pub open spec fn collisions(items: Seq<Seq<u8>>, g: u64, lk: u64, ts: nat, c: nat, d: nat) -> nat {
    excess(items, g, lk, ts, c, d, ts)
}

proof fn lemma_members_push(
    items: Seq<Seq<u8>>,
    x: Seq<u8>,
    g: u64,
    lk: u64,
    ts: nat,
    c: nat,
    d: nat,
    b: nat,
)
    ensures
        members(items.push(x), g, lk, ts, c, d, b) == if bucket_of(g, lk, x, ts, c, d) == b {
            members(items, g, lk, ts, c, d, b).push(x)
        } else {
            members(items, g, lk, ts, c, d, b)
        },
{
    assert(items.push(x).drop_last() =~= items);
}

proof fn lemma_members_len(items: Seq<Seq<u8>>, g: u64, lk: u64, ts: nat, c: nat, d: nat, b: nat)
    ensures
        members(items, g, lk, ts, c, d, b).len() <= items.len(),
    decreases items.len(),
{
    if items.len() > 0 {
        lemma_members_len(items.drop_last(), g, lk, ts, c, d, b);
    }
}

proof fn lemma_excess_push(
    items: Seq<Seq<u8>>,
    x: Seq<u8>,
    g: u64,
    lk: u64,
    ts: nat,
    c: nat,
    d: nat,
    n: nat,
)
    ensures
        excess(items.push(x), g, lk, ts, c, d, n) == excess(items, g, lk, ts, c, d, n) + if bucket_of(
            g,
            lk,
            x,
            ts,
            c,
            d,
        ) < n && members(items, g, lk, ts, c, d, bucket_of(g, lk, x, ts, c, d)).len() > 0 {
            1nat
        } else {
            0nat
        },
    decreases n,
{
    if n > 0 {
        lemma_excess_push(items, x, g, lk, ts, c, d, (n - 1) as nat);
        lemma_members_push(items, x, g, lk, ts, c, d, (n - 1) as nat);
    }
}

proof fn lemma_excess_empty(items: Seq<Seq<u8>>, g: u64, lk: u64, ts: nat, c: nat, d: nat, n: nat)
    requires
        items.len() == 0,
    ensures
        excess(items, g, lk, ts, c, d, n) == 0,
    decreases n,
{
    if n > 0 {
        lemma_excess_empty(items, g, lk, ts, c, d, (n - 1) as nat);
    }
}

proof fn lemma_mask_le(h: u64, m: u64)
    ensures
        h & m <= m,
{
    assert(h & m <= m) by (bit_vector);
}

/// Two to the power `e`.
pub open spec fn two_pow(e: nat) -> nat
    decreases e,
{
    if e == 0 {
        1
    } else {
        2 * two_pow((e - 1) as nat)
    }
}

/// `x` is a power of two.
pub open spec fn is_pow2(x: nat) -> bool {
    exists|e: nat| two_pow(e) == x
}

/// The first of `p`, `2p`, `4p`, ... that is not less than `n`.
pub open spec fn grow(p: nat, n: nat) -> nat
    decreases n - p,
{
    if p >= n || p == 0 {
        p
    } else if 2 * p >= n {
        2 * p
    } else {
        grow(2 * p, n)
    }
}

/// The smallest power of two not less than `n`: the table size the search starts with.
pub open spec fn first_size(n: nat) -> nat {
    grow(1, n)
}

/// The table size of the `t`-th trial when `kps` keys are tried per size.
pub open spec fn trial_size(n: nat, kps: nat, t: nat) -> nat {
    first_size(n) * two_pow(t / kps)
}

/// The `t`-th trial meets the density threshold `num / den`.
pub open spec fn trial_ok(
    items: Seq<Seq<u8>>,
    g: u64,
    num: u64,
    den: u64,
    kps: nat,
    c: nat,
    d: nat,
    t: nat,
) -> bool {
    let ts = trial_size(items.len(), kps, t);
    collisions(items, g, candidate_key(g, t), ts, c, d) * den <= num * ts
}

/// The `t`-th trial is the first one that meets the threshold, and its table size
/// is representable.
pub open spec fn first_accepted(
    items: Seq<Seq<u8>>,
    g: u64,
    num: u64,
    den: u64,
    kps: nat,
    c: nat,
    d: nat,
    t: nat,
) -> bool {
    &&& trial_size(items.len(), kps, t) <= usize::MAX
    &&& trial_ok(items, g, num, den, kps, c, d, t)
    &&& forall|u: nat| u < t ==> !#[trigger] trial_ok(items, g, num, den, kps, c, d, u)
}

/// `(lk, ts)` is the local key and table size of the first trial that meets the threshold.
pub open spec fn is_outcome(
    items: Seq<Seq<u8>>,
    g: u64,
    num: u64,
    den: u64,
    kps: nat,
    c: nat,
    d: nat,
    lk: u64,
    ts: nat,
) -> bool {
    exists|t: nat|
        #[trigger] first_accepted(items, g, num, den, kps, c, d, t) && lk == candidate_key(g, t)
            && ts == trial_size(items.len(), kps, t)
}

/// No trial with a representable table size meets the threshold.
pub open spec fn never_accepted(
    items: Seq<Seq<u8>>,
    g: u64,
    num: u64,
    den: u64,
    kps: nat,
    c: nat,
    d: nat,
) -> bool {
    forall|t: nat|
        trial_size(items.len(), kps, t) <= usize::MAX ==> !#[trigger] trial_ok(
            items,
            g,
            num,
            den,
            kps,
            c,
            d,
            t,
        )
}

proof fn lemma_two_pow_mono(a: nat, b: nat)
    requires
        a <= b,
    ensures
        1 <= two_pow(a) <= two_pow(b),
    decreases b,
{
    if b > a {
        lemma_two_pow_mono(a, (b - 1) as nat);
    } else if a > 0 {
        lemma_two_pow_mono(0, (a - 1) as nat);
    }
}

proof fn lemma_grow_ge(p: nat, n: nat)
    requires
        p >= 1,
    ensures
        grow(p, n) >= p,
    decreases n - p,
{
    if p < n && 2 * p < n {
        lemma_grow_ge(2 * p, n);
    }
}

proof fn lemma_grow_least(p: nat, n: nat, e: nat)
    requires
        p >= 1,
        two_pow(e) == p,
        p == 1 || p / 2 < n,
    ensures
        is_pow2(grow(p, n)),
        grow(p, n) >= n,
        grow(p, n) == 1 || grow(p, n) / 2 < n,
    decreases n - p,
{
    if p >= n {
        assert(two_pow(e) == grow(p, n));
    } else if 2 * p >= n {
        assert(two_pow(e + 1) == grow(p, n));
    } else {
        lemma_grow_least(2 * p, n, e + 1);
    }
}

/// The table size the search starts with is the least power of two not below `n`:
/// a power of two, at least `n`, and either 1 or with half of it below `n`.
pub proof fn lemma_first_size_least(n: nat)
    ensures
        is_pow2(first_size(n)),
        first_size(n) >= n,
        first_size(n) >= 1,
        first_size(n) == 1 || first_size(n) / 2 < n,
{
    assert(two_pow(0) == 1);
    lemma_grow_least(1, n, 0);
    lemma_grow_ge(1, n);
}

/// Every trial from index `u` on uses a table at least `first_size(n) * 2^e`, where
/// `e * kps <= u`.
proof fn lemma_trial_size_from(n: nat, kps: nat, e: nat, u: nat)
    requires
        kps >= 1,
        e * kps <= u,
    ensures
        trial_size(n, kps, u) >= first_size(n) * two_pow(e),
{
    lemma_fundamental_div_mod_converse((e * kps) as int, kps as int, e as int, 0);
    lemma_div_is_ordered((e * kps) as int, u as int, kps as int);
    lemma_two_pow_mono(e, u / kps);
    lemma_mul_inequality(two_pow(e) as int, two_pow(u / kps) as int, first_size(n) as int);
    assert(first_size(n) * two_pow(e) == two_pow(e) * first_size(n)) by (nonlinear_arith);
    assert(first_size(n) * two_pow(u / kps) == two_pow(u / kps) * first_size(n))
        by (nonlinear_arith);
}

/// The smallest power of two not less than `n`, if it is representable.
fn first_table_size(n: usize) -> (r: Option<usize>)
    ensures
        match r {
            Some(p) => p == first_size(n as nat) && p >= n && p >= 1 && is_pow2(p as nat),
            None => first_size(n as nat) > usize::MAX,
        },
{
    let mut p: usize = 1;
    let ghost mut e: nat = 0;
    while p < n
        invariant
            p >= 1,
            grow(p as nat, n as nat) == first_size(n as nat),
            two_pow(e) == p,
        decreases usize::MAX - p,
    {
        if p > usize::MAX / 2 {
            proof {
                lemma_grow_ge(2 * p as nat, n as nat);
            }
            return None;
        }
        p = p * 2;
        proof {
            e = e + 1;
        }
    }
    Some(p)
}

/// Searches for the first trial, in the fixed order of table sizes and candidate keys,
/// whose collision density in `items` is at most `density_num / density_den`.
///
/// Table sizes start at the smallest power of two not less than `items.len()` and
/// double after `keys_per_step` failed keys; the candidate keys continue across sizes.
/// Returns the accepted local key and table size.
pub fn search<const C: usize, const D: usize>(
    items: &[Vec<u8>],
    global_key: u64,
    density_num: u64,
    density_den: u64,
    keys_per_step: usize,
) -> (r: Result<(u64, usize), SearchError>)
    requires
        density_den > 0,
        keys_per_step >= 1,
    ensures
        match r {
            Ok((lk, ts)) => {
                let all = byte_seqs(items@);
                &&& is_outcome(all, global_key, density_num, density_den, keys_per_step as nat, C as nat, D as nat, lk, ts as nat)
                &&& is_pow2(ts as nat)
                &&& ts >= items@.len()
                &&& ts >= first_size(items@.len())
                &&& collisions(all, global_key, lk, ts as nat, C as nat, D as nat) * density_den
                    <= density_num * ts
            },
            Err(e) => e == SearchError::TableSizeOverflow && never_accepted(
                byte_seqs(items@),
                global_key,
                density_num,
                density_den,
                keys_per_step as nat,
                C as nat,
                D as nat,
            ),
        },
{
    let ghost all = byte_seqs(items@);
    let ghost n = items@.len();
    let ghost kps = keys_per_step as nat;
    let mut ts = match first_table_size(items.len()) {
        Some(p) => p,
        None => {
            proof {
                assert(two_pow(0) == 1);
                assert forall|t: nat| trial_size(n, kps, t) <= usize::MAX implies !#[trigger] trial_ok(
                    all,
                    global_key,
                    density_num,
                    density_den,
                    kps,
                    C as nat,
                    D as nat,
                    t,
                ) by {
                    lemma_trial_size_from(n, kps, 0, t);
                }
            }
            return Err(SearchError::TableSizeOverflow);
        },
    };
    let mut lk = SEED.wrapping_add(global_key);
    let ghost mut t: nat = 0;
    let ghost mut s: nat = 0;
    let ghost mut ep: nat = choose|e: nat| two_pow(e) == ts;
    assert(two_pow(0) == 1);
    assert(ts == first_size(n) * two_pow(0));
    loop
        invariant
            all == byte_seqs(items@),
            n == items@.len(),
            kps == keys_per_step,
            kps >= 1,
            density_den > 0,
            ts >= 1,
            ts >= n,
            two_pow(ep) == ts,
            ts == first_size(n) * two_pow(s),
            t == s * kps,
            lk == candidate_key(global_key, t),
            forall|u: nat| u < t ==> !#[trigger] trial_ok(all, global_key, density_num, density_den, kps, C as nat, D as nat, u),
        decreases usize::MAX - ts,
    {
        let mut k: usize = 0;
        while k < keys_per_step
            invariant
                all == byte_seqs(items@),
                n == items@.len(),
                kps == keys_per_step,
                kps >= 1,
                density_den > 0,
                ts >= 1,
                ts >= n,
                two_pow(ep) == ts,
                ts == first_size(n) * two_pow(s),
                k <= kps,
                t == s * kps + k,
                lk == candidate_key(global_key, t),
                forall|u: nat| u < t ==> !#[trigger] trial_ok(all, global_key, density_num, density_den, kps, C as nat, D as nat, u),
            decreases keys_per_step - k,
        {
            proof {
                lemma_fundamental_div_mod_converse(t as int, kps as int, s as int, k as int);
                assert(trial_size(n, kps, t) == ts);
            }
            let coll = count_collisions::<C, D>(items, global_key, lk, ts);
            proof {
                assert((coll as int) * (density_den as int) <= u64::MAX as int * u64::MAX as int) by (nonlinear_arith)
                    requires coll <= u64::MAX, density_den <= u64::MAX;
                assert((density_num as int) * (ts as int) <= u64::MAX as int * u64::MAX as int) by (nonlinear_arith)
                    requires ts <= u64::MAX, density_num <= u64::MAX;
            }
            let lhs = (coll as u128) * (density_den as u128);
            let rhs = (density_num as u128) * (ts as u128);
            if lhs <= rhs {
                proof {
                    assert(first_accepted(all, global_key, density_num, density_den, kps, C as nat, D as nat, t));
                    assert(is_outcome(all, global_key, density_num, density_den, kps, C as nat, D as nat, lk, ts as nat));
                    assert(two_pow(ep) == ts);
                    lemma_two_pow_mono(0, s);
                    assert(ts >= first_size(n)) by (nonlinear_arith)
                        requires
                            ts == first_size(n) * two_pow(s),
                            two_pow(s) >= 1,
                    ;
                }
                return Ok((lk, ts));
            }
            lk = lk.wrapping_mul(MULTIPLIER).wrapping_add(INC);
            k = k + 1;
            proof {
                t = t + 1;
            }
        }
        if ts > usize::MAX / 2 {
            proof {
                assert(t == (s + 1) * kps) by (nonlinear_arith)
                    requires t == s * kps + kps;
                assert forall|u: nat| trial_size(n, kps, u) <= usize::MAX implies !#[trigger] trial_ok(
                    all,
                    global_key,
                    density_num,
                    density_den,
                    kps,
                    C as nat,
                    D as nat,
                    u,
                ) by {
                    if u >= t {
                        lemma_trial_size_from(n, kps, s + 1, u);
                        assert(first_size(n) * two_pow(s + 1) == 2 * (first_size(n) * two_pow(s)))
                            by (nonlinear_arith)
                            requires two_pow(s + 1) == 2 * two_pow(s);
                    }
                }
            }
            return Err(SearchError::TableSizeOverflow);
        }
        proof {
            assert(first_size(n) * two_pow(s + 1) == 2 * (first_size(n) * two_pow(s)))
                by (nonlinear_arith)
                requires two_pow(s + 1) == 2 * two_pow(s);
            assert(t == (s + 1) * kps) by (nonlinear_arith)
                requires t == s * kps + kps;
            s = s + 1;
            ep = ep + 1;
        }
        ts = ts * 2;
    }
}

/// The digest of one item under keys `g`, `lk`.
fn item_digest<const C: usize, const D: usize>(g: u64, lk: u64, item: &Vec<u8>) -> (r: u64)
    ensures
        r == digest(g, lk, item@, C as nat, D as nat),
{
    let mut h = SipHasher::<C, D>::new_with_keys(g, lk);
    h.write(item.as_slice());
    proof {
        lemma_fresh_write_digest(g, lk, item@, C as nat, D as nat);
    }
    h.finish()
}

/// The bucket of `item` in a table of `ts` slots under keys `g`, `lk`.
fn bucket_index<const C: usize, const D: usize>(g: u64, lk: u64, item: &Vec<u8>, ts: usize) -> (r: usize)
    requires
        ts >= 1,
    ensures
        r == bucket_of(g, lk, item@, ts as nat, C as nat, D as nat),
        r < ts,
{
    let h = item_digest::<C, D>(g, lk, item);
    let m = (ts - 1) as u64;
    proof {
        lemma_mask_le(h, m);
    }
    (h & m) as usize
}

/// The number of collided items when `items` are placed in `ts` slots under keys
/// `g`, `lk`.
pub fn count_collisions<const C: usize, const D: usize>(
    items: &[Vec<u8>],
    g: u64,
    lk: u64,
    ts: usize,
) -> (r: usize)
    requires
        ts >= 1,
    ensures
        r == collisions(byte_seqs(items@), g, lk, ts as nat, C as nat, D as nat),
{
    let ghost all = byte_seqs(items@);
    let mut counters: Vec<usize> = vec![0; ts];
    let mut total: usize = 0;
    let mut j: usize = 0;
    proof {
        lemma_excess_empty(all.take(0), g, lk, ts as nat, C as nat, D as nat, ts as nat);
    }
    while j < items.len()
        invariant
            j <= items@.len(),
            ts >= 1,
            all == byte_seqs(items@),
            counters@.len() == ts,
            forall|b: int|
                0 <= b < ts ==> #[trigger] counters@[b] == members(
                    all.take(j as int),
                    g,
                    lk,
                    ts as nat,
                    C as nat,
                    D as nat,
                    b as nat,
                ).len(),
            total == excess(all.take(j as int), g, lk, ts as nat, C as nat, D as nat, ts as nat),
            total <= j,
        decreases items@.len() - j,
    {
        let idx = bucket_index::<C, D>(g, lk, &items[j], ts);
        let ghost prev = all.take(j as int);
        proof {
            assert(all.take(j + 1) =~= prev.push(items@[j as int]@));
            lemma_excess_push(prev, items@[j as int]@, g, lk, ts as nat, C as nat, D as nat, ts as nat);
            assert forall|b: int| 0 <= b < ts implies members(
                all.take(j + 1),
                g,
                lk,
                ts as nat,
                C as nat,
                D as nat,
                b as nat,
            ).len() == counters@[b] + if b == idx {
                1int
            } else {
                0int
            } by {
                lemma_members_push(prev, items@[j as int]@, g, lk, ts as nat, C as nat, D as nat, b as nat);
            }
            lemma_members_len(prev, g, lk, ts as nat, C as nat, D as nat, idx as nat);
        }
        let k = counters[idx];
        if k > 0 {
            total = total + 1;
        }
        counters.set(idx, k + 1);
        j = j + 1;
    }
    assert(all.take(items@.len() as int) =~= all);
    total
}

/// The bucket indices, in increasing order, whose contents hold at least `m` items.
pub open spec fn buckets_with(table: Seq<Seq<Seq<u8>>>, m: nat) -> Seq<nat>
    decreases table.len(),
{
    if table.len() == 0 {
        seq![]
    } else {
        let prev = buckets_with(table.drop_last(), m);
        if table.last().len() >= m {
            prev.push((table.len() - 1) as nat)
        } else {
            prev
        }
    }
}

/// A hash table built by [`gen_hash_fn`]: the keys and size of the accepted hash
/// function, and the items of each bucket.
pub struct HashFnStats<const C: usize, const D: usize> {
    field_maps: Vec<Vec<Vec<u8>>>,
    global_key: u64,
    local_key: u64,
    tsize: usize,
    collision_count: usize,
}

impl<const C: usize, const D: usize> HashFnStats<C, D> {
    /// The table has one bucket per slot, and its size is a power of two.
    pub closed spec fn wf(&self) -> bool {
        &&& self.field_maps@.len() == self.tsize
        &&& is_pow2(self.tsize as nat)
        &&& self.tsize >= 1
    }

    /// The contents of each bucket, by index.
    pub closed spec fn spec_table(&self) -> Seq<Seq<Seq<u8>>> {
        self.field_maps@.map_values(|b: Vec<Vec<u8>>| byte_seqs(b@))
    }

    /// The caller's global key.
    pub closed spec fn spec_global_key(&self) -> u64 {
        self.global_key
    }

    /// The accepted local key.
    pub closed spec fn spec_local_key(&self) -> u64 {
        self.local_key
    }

    /// The accepted table size.
    pub closed spec fn spec_table_size(&self) -> nat {
        self.tsize as nat
    }

    /// The number of collided items in the table.
    pub closed spec fn spec_collision_count(&self) -> nat {
        self.collision_count as nat
    }

    fn buckets_with_at_least<'a>(&'a self, m: usize) -> (r: Vec<(usize, &'a [Vec<u8>])>)
        ensures
            r@.map_values(|p: (usize, &'a [Vec<u8>])| p.0 as nat) == buckets_with(
                self.spec_table(),
                m as nat,
            ),
            forall|i: int|
                0 <= i < r@.len() ==> byte_seqs(#[trigger] r@[i].1@) == self.spec_table()[r@[i].0 as int],
    {
        let ghost table = self.spec_table();
        let mut r: Vec<(usize, &'a [Vec<u8>])> = Vec::new();
        let mut b: usize = 0;
        while b < self.field_maps.len()
            invariant
                b <= self.field_maps@.len() == table.len(),
                table == self.spec_table(),
                r@.map_values(|p: (usize, &'a [Vec<u8>])| p.0 as nat) == buckets_with(
                    table.take(b as int),
                    m as nat,
                ),
                forall|i: int|
                    0 <= i < r@.len() ==> byte_seqs(#[trigger] r@[i].1@) == table[r@[i].0 as int],
            decreases self.field_maps@.len() - b,
        {
            let ghost before = r@;
            assert(table.take(b + 1).drop_last() =~= table.take(b as int));
            if self.field_maps[b].len() >= m {
                let items = self.field_maps[b].as_slice();
                r.push((b, items));
                assert(table[b as int] == byte_seqs(self.field_maps@[b as int]@));
                assert(r@[r@.len() - 1] == (b, items));
                assert forall|i: int| 0 <= i < r@.len() implies byte_seqs(#[trigger] r@[i].1@)
                    == table[r@[i].0 as int] by {
                    if i < before.len() {
                        assert(r@[i] == before[i]);
                    }
                }
                assert(r@.map_values(|p: (usize, &'a [Vec<u8>])| p.0 as nat) =~= before.map_values(
                    |p: (usize, &'a [Vec<u8>])| p.0 as nat,
                ).push(b as nat));
            }
            b = b + 1;
        }
        assert(table.take(b as int) =~= table);
        r
    }

    /// The index and items of every non-empty bucket, in increasing index order.
    pub fn key_val_map<'a>(&'a self) -> (r: Vec<(usize, &'a [Vec<u8>])>)
        ensures
            r@.map_values(|p: (usize, &'a [Vec<u8>])| p.0 as nat) == buckets_with(self.spec_table(), 1),
            forall|i: int|
                0 <= i < r@.len() ==> byte_seqs(#[trigger] r@[i].1@) == self.spec_table()[r@[i].0 as int],
    {
        self.buckets_with_at_least(1)
    }

    /// The index and items of every bucket holding more than one item, in increasing
    /// index order.
    pub fn collision_map<'a>(&'a self) -> (r: Vec<(usize, &'a [Vec<u8>])>)
        ensures
            r@.map_values(|p: (usize, &'a [Vec<u8>])| p.0 as nat) == buckets_with(self.spec_table(), 2),
            forall|i: int|
                0 <= i < r@.len() ==> byte_seqs(#[trigger] r@[i].1@) == self.spec_table()[r@[i].0 as int],
    {
        self.buckets_with_at_least(2)
    }

    /// The size of the table the hash function meets its threshold with.
    pub fn table_size(&self) -> (r: usize)
        ensures
            r == self.spec_table_size(),
    {
        self.tsize
    }

    /// The keys the table was built with, in the order [`SipHasher::new_with_keys`]
    /// takes them: the global key, then the local key.
    pub fn keys(&self) -> (r: (u64, u64))
        ensures
            r == (self.spec_global_key(), self.spec_local_key()),
    {
        (self.global_key, self.local_key)
    }

    /// The number of items that landed in an already occupied bucket.
    pub fn collision_count(&self) -> (r: usize)
        ensures
            r == self.spec_collision_count(),
    {
        self.collision_count
    }

    /// A fresh hasher keyed as the table's hash function, for hashing probe values.
    pub fn build_hasher(&self) -> (r: SipHasher<C, D>)
        ensures
            r@ == fresh_view(self.spec_global_key(), self.spec_local_key()),
    {
        SipHasher::new_with_keys(self.global_key, self.local_key)
    }
}

/// The items of `vals` placed, in input order, in the `ts` buckets that keys `g`,
/// `lk` select, and the number of collided items.
fn place_items<const C: usize, const D: usize>(
    vals: &[Vec<u8>],
    global_key: u64,
    lk: u64,
    ts: usize,
) -> (r: (Vec<Vec<Vec<u8>>>, usize))
    requires
        ts >= 1,
    ensures
        r.0@.len() == ts,
        forall|i: int|
            0 <= i < ts ==> byte_seqs((#[trigger] r.0@[i])@) == members(
                byte_seqs(vals@),
                global_key,
                lk,
                ts as nat,
                C as nat,
                D as nat,
                i as nat,
            ),
        r.1 == collisions(byte_seqs(vals@), global_key, lk, ts as nat, C as nat, D as nat),
{
    let ghost all = byte_seqs(vals@);
    let mut field_maps: Vec<Vec<Vec<u8>>> = Vec::new();
    let mut b: usize = 0;
    while b < ts
        invariant
            b <= ts,
            field_maps@.len() == b,
            forall|i: int| 0 <= i < b ==> (#[trigger] field_maps@[i])@.len() == 0,
        decreases ts - b,
    {
        field_maps.push(Vec::new());
        b = b + 1;
    }
    let mut total: usize = 0;
    let mut j: usize = 0;
    proof {
        lemma_excess_empty(all.take(0), global_key, lk, ts as nat, C as nat, D as nat, ts as nat);
        assert forall|i: int| 0 <= i < ts implies byte_seqs((#[trigger] field_maps@[i])@) == members(
            all.take(0),
            global_key,
            lk,
            ts as nat,
            C as nat,
            D as nat,
            i as nat,
        ) by {
            assert(byte_seqs(field_maps@[i]@) =~= Seq::<Seq<u8>>::empty());
        }
    }
    while j < vals.len()
        invariant
            j <= vals@.len(),
            ts >= 1,
            all == byte_seqs(vals@),
            field_maps@.len() == ts,
            forall|i: int|
                0 <= i < ts ==> byte_seqs((#[trigger] field_maps@[i])@) == members(
                    all.take(j as int),
                    global_key,
                    lk,
                    ts as nat,
                    C as nat,
                    D as nat,
                    i as nat,
                ),
            total == excess(all.take(j as int), global_key, lk, ts as nat, C as nat, D as nat, ts as nat),
            total <= j,
        decreases vals@.len() - j,
    {
        let idx = bucket_index::<C, D>(global_key, lk, &vals[j], ts);
        let ghost prev = all.take(j as int);
        let ghost x = vals@[j as int]@;
        let mut bucket: Vec<Vec<u8>> = Vec::new();
        field_maps.set_and_swap(idx, &mut bucket);
        let item = vals[j].clone();
        assert(item@ =~= x);
        let ghost old_bucket = bucket@;
        if bucket.len() > 0 {
            total = total + 1;
        }
        bucket.push(item);
        field_maps.set(idx, bucket);
        proof {
            assert(all.take(j + 1) =~= prev.push(x));
            assert(byte_seqs(old_bucket.push(item)) =~= byte_seqs(old_bucket).push(x));
            lemma_excess_push(prev, x, global_key, lk, ts as nat, C as nat, D as nat, ts as nat);
            assert forall|i: int| 0 <= i < ts implies byte_seqs((#[trigger] field_maps@[i])@) == members(
                all.take(j + 1),
                global_key,
                lk,
                ts as nat,
                C as nat,
                D as nat,
                i as nat,
            ) by {
                lemma_members_push(prev, x, global_key, lk, ts as nat, C as nat, D as nat, i as nat);
            }
        }
        j = j + 1;
    }
    assert(all.take(vals@.len() as int) =~= all);
    (field_maps, total)
}

/// Generates a near-perfect hash function for `vals` under `global_key`, and the table
/// it gives.
///
/// The accepted local key and table size are those of [`search`] with the density
/// threshold `density_num / density_den`; a threshold of zero asks for a perfect hash.
/// Each item is then placed, in input order, in the bucket its digest selects.
/// `vals` is assumed to hold no duplicates.
pub fn gen_hash_fn<const C: usize, const D: usize>(
    vals: &[Vec<u8>],
    global_key: u64,
    density_num: u64,
    density_den: u64,
    keys_per_step: usize,
) -> (r: Result<HashFnStats<C, D>, SearchError>)
    requires
        density_den > 0,
        keys_per_step >= 1,
    ensures
        match r {
            Ok(st) => {
                let all = byte_seqs(vals@);
                let lk = st.spec_local_key();
                let ts = st.spec_table_size();
                &&& st.spec_global_key() == global_key
                &&& is_outcome(all, global_key, density_num, density_den, keys_per_step as nat, C as nat, D as nat, lk, ts)
                &&& is_pow2(ts)
                &&& ts >= vals@.len()
                &&& ts >= first_size(vals@.len())
                &&& st.wf()
                &&& collisions(all, global_key, lk, ts, C as nat, D as nat) * density_den <= density_num * ts
                &&& st.spec_collision_count() == collisions(all, global_key, lk, ts, C as nat, D as nat)
                &&& st.spec_collision_count() * density_den <= density_num * ts
                &&& density_num == 0 ==> forall|b: int|
                    0 <= b < ts ==> (#[trigger] st.spec_table()[b]).len() <= 1
                &&& st.spec_table().len() == ts
                &&& forall|b: int|
                    0 <= b < ts ==> #[trigger] st.spec_table()[b] == members(all, global_key, lk, ts, C as nat, D as nat, b as nat)
            },
            Err(e) => e == SearchError::TableSizeOverflow && never_accepted(
                byte_seqs(vals@),
                global_key,
                density_num,
                density_den,
                keys_per_step as nat,
                C as nat,
                D as nat,
            ),
        },
{
    let (lk, ts) = match search::<C, D>(vals, global_key, density_num, density_den, keys_per_step) {
        Ok(found) => found,
        Err(e) => {
            return Err(e);
        },
    };
    proof {
        let e = choose|e: nat| two_pow(e) == ts;
        lemma_two_pow_mono(0, e);
    }
    let (field_maps, total) = place_items::<C, D>(vals, global_key, lk, ts);
    proof {
        if density_num == 0 {
            let k = collisions(byte_seqs(vals@), global_key, lk, ts as nat, C as nat, D as nat);
            assert(k == 0) by (nonlinear_arith)
                requires
                    k * density_den <= 0 * ts,
                    density_den > 0,
            ;
            assert forall|b: int| 0 <= b < ts implies #[trigger] members(
                byte_seqs(vals@),
                global_key,
                lk,
                ts as nat,
                C as nat,
                D as nat,
                b as nat,
            ).len() <= 1 by {
                lemma_no_excess(byte_seqs(vals@), global_key, lk, ts as nat, C as nat, D as nat, ts as nat, b as nat);
            }
        }
    }
    let st = HashFnStats { field_maps, global_key, local_key: lk, tsize: ts, collision_count: total };
    assert(st.spec_table().len() == ts);
    Ok(st)
}

/// The search result is unique: any two outcomes for the same items, keys, threshold
/// and trial budget are the same local key and table size.
pub proof fn lemma_search_deterministic(
    items: Seq<Seq<u8>>,
    g: u64,
    num: u64,
    den: u64,
    kps: nat,
    c: nat,
    d: nat,
    lk1: u64,
    ts1: nat,
    lk2: u64,
    ts2: nat,
)
    requires
        is_outcome(items, g, num, den, kps, c, d, lk1, ts1),
        is_outcome(items, g, num, den, kps, c, d, lk2, ts2),
    ensures
        lk1 == lk2,
        ts1 == ts2,
{
    let t1 = choose|t: nat|
        #[trigger] first_accepted(items, g, num, den, kps, c, d, t) && lk1 == candidate_key(g, t)
            && ts1 == trial_size(items.len(), kps, t);
    let t2 = choose|t: nat|
        #[trigger] first_accepted(items, g, num, den, kps, c, d, t) && lk2 == candidate_key(g, t)
            && ts2 == trial_size(items.len(), kps, t);
    if t1 < t2 {
        assert(!trial_ok(items, g, num, den, kps, c, d, t1));
    } else if t2 < t1 {
        assert(!trial_ok(items, g, num, den, kps, c, d, t2));
    }
}

proof fn lemma_one_member(items: Seq<Seq<u8>>, g: u64, lk: u64, ts: nat, c: nat, d: nat, i: int)
    requires
        0 <= i < items.len(),
    ensures
        members(items, g, lk, ts, c, d, bucket_of(g, lk, items[i], ts, c, d)).len() >= 1,
    decreases items.len(),
{
    if i < items.len() - 1 {
        lemma_one_member(items.drop_last(), g, lk, ts, c, d, i);
    }
}

proof fn lemma_two_members(
    items: Seq<Seq<u8>>,
    g: u64,
    lk: u64,
    ts: nat,
    c: nat,
    d: nat,
    i: int,
    j: int,
)
    requires
        0 <= i < j < items.len(),
        bucket_of(g, lk, items[i], ts, c, d) == bucket_of(g, lk, items[j], ts, c, d),
    ensures
        members(items, g, lk, ts, c, d, bucket_of(g, lk, items[i], ts, c, d)).len() >= 2,
    decreases items.len(),
{
    if j == items.len() - 1 {
        lemma_one_member(items.drop_last(), g, lk, ts, c, d, i);
    } else {
        lemma_two_members(items.drop_last(), g, lk, ts, c, d, i, j);
    }
}

proof fn lemma_no_excess(items: Seq<Seq<u8>>, g: u64, lk: u64, ts: nat, c: nat, d: nat, n: nat, b: nat)
    requires
        excess(items, g, lk, ts, c, d, n) == 0,
        b < n,
    ensures
        members(items, g, lk, ts, c, d, b).len() <= 1,
    decreases n,
{
    if b < n - 1 {
        lemma_no_excess(items, g, lk, ts, c, d, (n - 1) as nat, b);
    }
}

/// With a threshold of zero the generated function is perfect: no two items of the
/// set share a bucket.
pub proof fn lemma_zero_threshold_perfect(
    items: Seq<Seq<u8>>,
    g: u64,
    den: u64,
    kps: nat,
    c: nat,
    d: nat,
    lk: u64,
    ts: nat,
)
    requires
        den > 0,
        kps >= 1,
        is_outcome(items, g, 0, den, kps, c, d, lk, ts),
    ensures
        forall|i: int, j: int|
            0 <= i < j < items.len() ==> #[trigger] bucket_of(g, lk, items[i], ts, c, d)
                != #[trigger] bucket_of(g, lk, items[j], ts, c, d),
{
    let t = choose|t: nat|
        #[trigger] first_accepted(items, g, 0, den, kps, c, d, t) && lk == candidate_key(g, t)
            && ts == trial_size(items.len(), kps, t);
    let k = collisions(items, g, lk, ts, c, d);
    assert(k * den <= 0 * ts);
    assert(k == 0) by (nonlinear_arith)
        requires
            k * den <= 0,
            den > 0,
    ;
    lemma_grow_ge(1, items.len());
    lemma_two_pow_mono(0, t / kps);
    assert(ts >= 1) by (nonlinear_arith)
        requires
            ts == first_size(items.len()) * two_pow(t / kps),
            first_size(items.len()) >= 1,
            two_pow(t / kps) >= 1,
    ;
    assert forall|i: int, j: int| 0 <= i < j < items.len() implies #[trigger] bucket_of(
        g,
        lk,
        items[i],
        ts,
        c,
        d,
    ) != #[trigger] bucket_of(g, lk, items[j], ts, c, d) by {
        lemma_distinct_buckets(items, g, lk, ts, c, d, i, j);
    }
}

proof fn lemma_distinct_buckets(
    items: Seq<Seq<u8>>,
    g: u64,
    lk: u64,
    ts: nat,
    c: nat,
    d: nat,
    i: int,
    j: int,
)
    requires
        1 <= ts <= usize::MAX,
        collisions(items, g, lk, ts, c, d) == 0,
        0 <= i < j < items.len(),
    ensures
        bucket_of(g, lk, items[i], ts, c, d) != bucket_of(g, lk, items[j], ts, c, d),
{
    let b = bucket_of(g, lk, items[i], ts, c, d);
    if b == bucket_of(g, lk, items[j], ts, c, d) {
        lemma_two_members(items, g, lk, ts, c, d, i, j);
        lemma_mask_le(digest(g, lk, items[i], c, d), (ts - 1) as u64);
        assert(b < ts);
        lemma_no_excess(items, g, lk, ts, c, d, ts, b);
    }
}

proof fn lemma_trial_size_mono(n: nat, kps: nat, t1: nat, t2: nat)
    requires
        kps >= 1,
        t1 <= t2,
    ensures
        trial_size(n, kps, t1) <= trial_size(n, kps, t2),
{
    lemma_div_is_ordered(t1 as int, t2 as int, kps as int);
    lemma_two_pow_mono(t1 / kps, t2 / kps);
    lemma_mul_inequality(two_pow(t1 / kps) as int, two_pow(t2 / kps) as int, first_size(n) as int);
    assert(first_size(n) * two_pow(t1 / kps) == two_pow(t1 / kps) * first_size(n))
        by (nonlinear_arith);
    assert(first_size(n) * two_pow(t2 / kps) == two_pow(t2 / kps) * first_size(n))
        by (nonlinear_arith);
}

proof fn lemma_looser_accepts(
    items: Seq<Seq<u8>>,
    g: u64,
    num1: u64,
    den1: u64,
    num2: u64,
    den2: u64,
    kps: nat,
    c: nat,
    d: nat,
    t: nat,
)
    requires
        den1 > 0,
        num1 * den2 <= num2 * den1,
        trial_ok(items, g, num1, den1, kps, c, d, t),
    ensures
        trial_ok(items, g, num2, den2, kps, c, d, t),
{
    let ts = trial_size(items.len(), kps, t);
    let k = collisions(items, g, candidate_key(g, t), ts, c, d);
    assert(k * den2 <= num2 * ts) by (nonlinear_arith)
        requires
            k * den1 <= num1 * ts,
            num1 * den2 <= num2 * den1,
            den1 > 0,
            k >= 0,
            ts >= 0,
            den2 >= 0,
    {
        assert(k * den1 * den2 <= num1 * ts * den2);
        assert(num1 * den2 * ts <= num2 * den1 * ts);
        assert(den1 * (k * den2) <= den1 * (num2 * ts));
    }
}

/// Lowering the density threshold (from `num2 / den2` to `num1 / den1`) never
/// lowers the table size of the outcome.
pub proof fn lemma_tighter_threshold_no_smaller_table(
    items: Seq<Seq<u8>>,
    g: u64,
    num1: u64,
    den1: u64,
    num2: u64,
    den2: u64,
    kps: nat,
    c: nat,
    d: nat,
    lk1: u64,
    ts1: nat,
    lk2: u64,
    ts2: nat,
)
    requires
        den1 > 0,
        den2 > 0,
        kps >= 1,
        num1 * den2 <= num2 * den1,
        is_outcome(items, g, num1, den1, kps, c, d, lk1, ts1),
        is_outcome(items, g, num2, den2, kps, c, d, lk2, ts2),
    ensures
        ts2 <= ts1,
{
    let t1 = choose|t: nat|
        #[trigger] first_accepted(items, g, num1, den1, kps, c, d, t) && lk1 == candidate_key(g, t)
            && ts1 == trial_size(items.len(), kps, t);
    let t2 = choose|t: nat|
        #[trigger] first_accepted(items, g, num2, den2, kps, c, d, t) && lk2 == candidate_key(g, t)
            && ts2 == trial_size(items.len(), kps, t);
    lemma_looser_accepts(items, g, num1, den1, num2, den2, kps, c, d, t1);
    if t1 < t2 {
        assert(!trial_ok(items, g, num2, den2, kps, c, d, t1));
    }
    lemma_trial_size_mono(items.len(), kps, t2, t1);
}

/// A search that fails under a looser threshold fails under the tighter one too.
pub proof fn lemma_tighter_threshold_fails_too(
    items: Seq<Seq<u8>>,
    g: u64,
    num1: u64,
    den1: u64,
    num2: u64,
    den2: u64,
    kps: nat,
    c: nat,
    d: nat,
)
    requires
        den1 > 0,
        num1 * den2 <= num2 * den1,
        never_accepted(items, g, num2, den2, kps, c, d),
    ensures
        never_accepted(items, g, num1, den1, kps, c, d),
{
    assert forall|t: nat| trial_size(items.len(), kps, t) <= usize::MAX implies !#[trigger] trial_ok(
        items,
        g,
        num1,
        den1,
        kps,
        c,
        d,
        t,
    ) by {
        if trial_ok(items, g, num1, den1, kps, c, d, t) {
            lemma_looser_accepts(items, g, num1, den1, num2, den2, kps, c, d, t);
        }
    }
}

} // verus!

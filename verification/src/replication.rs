//! Placement of keys on shards and the replication factor.

use vstd::arithmetic::div_mod::*;
use vstd::arithmetic::mul::*;
use vstd::arithmetic::power2::*;
use vstd::prelude::*;

verus! {

/// A non-negative rational, `num / den`.
pub struct Ratio {
    pub num: nat,
    pub den: nat,
}

/// The integer nearest to `n / d`, a tie going to the even neighbour.
pub open spec fn round_half_even(n: nat, d: nat) -> nat
    recommends
        d > 0,
{
    let q = n / d;
    let r = n % d;
    if 2 * r > d || (2 * r == d && q % 2 == 1) {
        q + 1
    } else {
        q
    }
}

/// The largest `k` with `2^k <= n`, for a positive `n`.
pub open spec fn floor_log2(n: nat) -> nat
    decreases n,
{
    if n <= 1 {
        0
    } else {
        floor_log2(n / 2) + 1
    }
}

/// `n / d` rounded to the nearest number with a significand of 53 bits, ties to
/// even: what one double-precision operation makes of the exact value `n / d`,
/// for `n / d >= 1`.
pub open spec fn round_to_double(n: nat, d: nat) -> Ratio
    recommends
        0 < d <= n,
{
    let k = floor_log2(n / d);
    if k <= 52 {
        Ratio {
            num: round_half_even(n * pow2((52 - k) as nat), d),
            den: pow2((52 - k) as nat),
        }
    } else {
        Ratio {
            num: round_half_even(n, d * pow2((k - 52) as nat)) * pow2((k - 52) as nat),
            den: 1,
        }
    }
}

/// The linear congruential step that drives the jumps.
pub open spec fn next_key(key: u64) -> u64 {
    ((key * 2862933555777941757 + 1) % 0x1_0000_0000_0000_0000) as u64
}

/// The bucket that a key held in bucket `b` jumps to next:
/// `(b + 1) * (2^31 / ((key >> 33) + 1))`, both operations rounded to double
/// precision and the product truncated.
pub open spec fn jump_target(key: u64, b: nat) -> nat {
    let x = (key / 0x2_0000_0000) as nat + 1;
    let scale = round_to_double(0x8000_0000, x);
    let product = round_to_double((b + 1) * scale.num, scale.den);
    product.num / product.den
}

/// The last bucket below `n` on the walk that starts in bucket `b`.
pub open spec fn jump_walk(key: u64, b: nat, n: nat) -> nat
    decreases n - b,
{
    let key = next_key(key);
    let j = jump_target(key, b);
    if b < j < n {
        jump_walk(key, j, n)
    } else {
        b
    }
}

/// The bucket of a key among `n` buckets, `n > 0`.
pub open spec fn jump_bucket(key: u64, n: nat) -> nat {
    jump_walk(key, 0, n)
}

/// `2^floor_log2(n)` is the largest power of two up to `n`.
proof fn lemma_floor_log2(n: nat)
    requires
        n >= 1,
    ensures
        pow2(floor_log2(n)) <= n < pow2(floor_log2(n) + 1),
    decreases n,
{
    if n <= 1 {
        lemma2_to64();
    } else {
        lemma_floor_log2(n / 2);
        let k = floor_log2(n / 2);
        lemma_pow2_unfold(k + 1);
        lemma_pow2_unfold(k + 2);
    }
}

proof fn lemma_pow2_monotone(a: nat, b: nat)
    requires
        a <= b,
    ensures
        0 < pow2(a) <= pow2(b),
{
    lemma_pow2_pos(a);
    if a < b {
        lemma_pow2_strictly_increases(a, b);
    }
}

/// Rounding never takes a value below an integer that it starts from, as long as
/// that integer has at most 53 bits.
proof fn lemma_round_to_double_lower(n: nat, d: nat, a: nat)
    requires
        d > 0,
        n >= a * d,
        n >= d,
        a < pow2(53),
    ensures
        round_to_double(n, d).den > 0,
        round_to_double(n, d).num >= a * round_to_double(n, d).den,
{
    let k = floor_log2(n / d);
    lemma_div_non_zero(n as int, d as int);
    lemma_floor_log2(n / d);
    if k <= 52 {
        let s = pow2((52 - k) as nat);
        lemma_pow2_pos((52 - k) as nat);
        assert(n * s >= (a * s) * d) by (nonlinear_arith)
            requires
                n >= a * d,
        ;
        lemma_div_is_ordered(((a * s) * d) as int, (n * s) as int, d as int);
        lemma_div_by_multiple((a * s) as int, d as int);
    } else {
        let s = pow2((k - 52) as nat);
        lemma_pow2_pos((k - 52) as nat);
        let q = n / (d * s);
        lemma_pow2_adds((k - 52) as nat, 52);
        lemma_div_denominator(n as int, d as int, s as int);
        assert(d * s > 0) by (nonlinear_arith)
            requires
                d > 0,
                s > 0,
        ;
        assert(q >= pow2(52)) by {
            assert((n / d) >= pow2(52) * s) by (nonlinear_arith)
                requires
                    (n / d) >= pow2(k),
                    pow2(k) == s * pow2(52),
            ;
            lemma_div_is_ordered((pow2(52) * s) as int, (n / d) as int, s as int);
            lemma_div_by_multiple(pow2(52) as int, s as int);
        }
        lemma_pow2_monotone(1, (k - 52) as nat);
        lemma2_to64();
        lemma_pow2_adds(52, 1);
        assert(round_half_even(n, d * s) * s >= pow2(53)) by (nonlinear_arith)
            requires
                round_half_even(n, d * s) >= pow2(52),
                s >= 2,
                pow2(53) == pow2(52) * 2,
        ;
    }
}

/// A jump always leads to a later bucket.
proof fn lemma_jump_target_advances(key: u64, b: nat)
    requires
        b < 0x1_0000_0000,
    ensures
        jump_target(key, b) > b,
{
    let x = (key / 0x2_0000_0000) as nat + 1;
    let scale = round_to_double(0x8000_0000, x);
    lemma2_to64_rest();
    lemma_round_to_double_lower(0x8000_0000, x, 1);
    let n = (b + 1) * scale.num;
    assert(n >= (b + 1) * scale.den && n >= scale.den) by (nonlinear_arith)
        requires
            n == (b + 1) * scale.num,
            scale.num >= scale.den,
            b >= 0,
    ;
    lemma_round_to_double_lower(n, scale.den, b + 1);
    let product = round_to_double(n, scale.den);
    lemma_div_is_ordered(((b + 1) * product.den) as int, product.num as int, product.den as int);
    lemma_div_by_multiple((b + 1) as int, product.den as int);
}

/// `2^e`.
fn power_of_two(e: u32) -> (p: u128)
    requires
        e <= 100,
    ensures
        p == pow2(e as nat),
{
    proof {
        lemma2_to64();
    }
    let mut p: u128 = 1;
    let mut i: u32 = 0;
    while i < e
        invariant
            i <= e <= 100,
            p == pow2(i as nat),
        decreases e - i,
    {
        proof {
            lemma_pow2_unfold((i + 1) as nat);
            lemma_pow2_monotone(i as nat, 100);
            lemma_pow2_adds(50, 50);
            lemma2_to64_rest();
            assert(pow2(100) == 0x4_0000_0000_0000 * 0x4_0000_0000_0000);
        }
        p = p * 2;
        i = i + 1;
    }
    p
}

/// The integer nearest to `n / d`, ties to even.
fn nearest(n: u128, d: u128) -> (r: u128)
    requires
        0 < d < 0x4000_0000_0000_0000_0000_0000_0000_0000,
    ensures
        r == round_half_even(n as nat, d as nat),
{
    let q: u128 = n / d;
    let r: u128 = n % d;
    if 2 * r > d || (2 * r == d && q % 2 == 1) {
        assert(q < u128::MAX) by (nonlinear_arith)
            requires
                d >= 2,
                q == n / d,
                n <= u128::MAX,
        ;
        q + 1
    } else {
        q
    }
}

/// Position of the leading bit of `n`.
fn leading_bit(n: u128) -> (k: u32)
    requires
        n >= 1,
    ensures
        k == floor_log2(n as nat),
        k < 128,
{
    proof {
        lemma_floor_log2(n as nat);
        lemma2_to64_rest();
        lemma_pow2_adds(64, 64);
        assert(pow2(128) == 0x1_0000_0000_0000_0000 * 0x1_0000_0000_0000_0000);
        if floor_log2(n as nat) >= 128 {
            lemma_pow2_monotone(128, floor_log2(n as nat));
        }
    }
    let mut v: u128 = n;
    let mut k: u32 = 0;
    while v > 1
        invariant
            v >= 1,
            k + floor_log2(v as nat) == floor_log2(n as nat),
            n >= 1,
            floor_log2(n as nat) < 128,
        decreases v,
    {
        v = v / 2;
        k = k + 1;
    }
    k
}

/// `n / d` rounded to double precision, as a fraction.
fn round_double(n: u128, d: u128) -> (r: (u128, u128))
    requires
        0 < d <= n,
        d <= 0x20_0000_0000_0000,
        n <= 0x40_0000_0000_0000_0000_0000,
    ensures
        r.0 == round_to_double(n as nat, d as nat).num,
        r.1 == round_to_double(n as nat, d as nat).den,
        0 < r.1 <= 0x10_0000_0000_0000,
        n < d * 0x1_0000_0000 ==> r.0 <= 0x20_0000_0000_0000,
{
    proof {
        lemma_div_non_zero(n as int, d as int);
    }
    let k: u32 = leading_bit(n / d);
    proof {
        lemma_floor_log2((n / d) as nat);
        lemma2_to64_rest();
        lemma_fundamental_div_mod(n as int, d as int);
        let q = (n / d) as int;
        let r = (n % d) as int;
        let p = pow2((k + 1) as nat) as int;
        assert(n < d * p) by (nonlinear_arith)
            requires
                n == d * q + r,
                r < d,
                q + 1 <= p,
        ;
        lemma_pow2_adds(64, 22);
        if k > 86 {
            lemma_pow2_monotone(86, k as nat);
            assert(q <= n) by (nonlinear_arith)
                requires
                    n == d * q + r,
                    r >= 0,
                    d >= 1,
                    q >= 0,
            ;
        }
    }
    if k <= 52 {
        let s: u128 = power_of_two(52 - k);
        proof {
            lemma_pow2_monotone((52 - k) as nat, 52);
            lemma_pow2_adds((52 - k) as nat, (k + 1) as nat);
            assert(n * s < d * pow2(53)) by (nonlinear_arith)
                requires
                    n < d * pow2((k + 1) as nat),
                    s > 0,
                    s == pow2((52 - k) as nat),
                    pow2(53) == pow2((52 - k) as nat) * pow2((k + 1) as nat),
            ;
            assert(d * pow2(53) <= 0x20_0000_0000_0000 * 0x20_0000_0000_0000) by (nonlinear_arith)
                requires
                    0 <= d <= 0x20_0000_0000_0000,
                    pow2(53) == 0x20_0000_0000_0000,
            ;
        }
        let m: u128 = nearest(n * s, d);
        assert(m <= 0x20_0000_0000_0000) by {
            lemma_multiply_divide_lt((n * s) as int, d as int, pow2(53) as int);
        }
        (m, s)
    } else {
        let s: u128 = power_of_two(k - 52);
        proof {
            let q = (n / d) as int;
            lemma_pow2_adds((k - 52) as nat, 52);
            lemma_pow2_pos((k - 52) as nat);
            assert(d * s <= n && 0 < d * s) by (nonlinear_arith)
                requires
                    q >= pow2(k as nat),
                    pow2(k as nat) == s * pow2(52),
                    pow2(52) >= 1,
                    n >= d * q,
                    d > 0,
                    s > 0,
            ;
            let h = (n / ((d * s) as u128)) as int;
            lemma_fundamental_div_mod(n as int, d * s);
            assert((h + 1) * s <= 2 * n) by (nonlinear_arith)
                requires
                    (d * s) * h <= n,
                    d >= 1,
                    d * s <= n,
                    h >= 0,
                    s > 0,
            ;
            assert(!(n < d * 0x1_0000_0000)) by (nonlinear_arith)
                requires
                    d * s <= n,
                    q >= pow2(k as nat),
                    pow2(k as nat) == s * pow2(52),
                    pow2(52) == 0x10_0000_0000_0000,
                    s >= 1,
                    n >= d * q,
                    d > 0,
            ;
            assert(round_half_even(n as nat, (d * s) as nat) * s <= (h + 1) * s) by (nonlinear_arith)
                requires
                    round_half_even(n as nat, (d * s) as nat) <= h + 1,
                    s > 0,
            ;
        }
        (nearest(n, d * s) * s, 1)
    }
}

/// One step of the generator.
fn advance(key: u64) -> (r: u64)
    ensures
        r == next_key(key),
{
    proof {
        let p = key as int * 2862933555777941757;
        let m: int = 0x1_0000_0000_0000_0000;
        lemma_mod_bound(p, m);
        lemma_mod_bound(p + 1, m);
        lemma_add_mod_noop(p, 1, m);
        lemma_small_mod(1, m as nat);
    }
    key.wrapping_mul(2862933555777941757).wrapping_add(1)
}

/// The bucket after `b` on the walk of a key.
fn next_bucket(key: u64, b: u32) -> (j: u128)
    requires
        b < u32::MAX,
    ensures
        j == jump_target(key, b as nat),
{
    let x: u128 = (key / 0x2_0000_0000) as u128 + 1;
    let scale: (u128, u128) = round_double(0x8000_0000, x);
    proof {
        lemma2_to64_rest();
        lemma_round_to_double_lower(0x8000_0000, x as nat, 1);
        assert((b + 1) * scale.0 >= scale.1 && (b + 1) * scale.0 <= 0x1_0000_0000
            * 0x20_0000_0000_0000) by (nonlinear_arith)
            requires
                scale.0 >= scale.1,
                0 <= b < 0x1_0000_0000 - 1,
                0 <= scale.0 <= 0x20_0000_0000_0000,
        ;
    }
    let product: (u128, u128) = round_double((b as u128 + 1) * scale.0, scale.1);
    product.0 / product.1
}

/// Jump consistent hash (Lamping and Veach, "A Fast, Minimal Memory, Consistent
/// Hash Algorithm", 2014).
///
/// Maps a key to a bucket below `num_buckets` such that only about one key in
/// `num_buckets` moves when a bucket is added. Double-precision arithmetic is
/// carried out on integers, so the buckets are the same on every machine. With
/// no bucket at all the result is `u32::MAX`.
pub fn jump_consistent_hash(key: u64, num_buckets: u32) -> (bucket: u32)
    ensures
        num_buckets == 0 ==> bucket == u32::MAX,
        num_buckets > 0 ==> bucket == jump_bucket(key, num_buckets as nat),
        num_buckets > 0 ==> bucket < num_buckets,
{
    if num_buckets == 0 {
        return u32::MAX;
    }
    let mut k: u64 = key;
    let mut b: u32 = 0;
    loop
        invariant
            b < num_buckets,
            jump_walk(k, b as nat, num_buckets as nat) == jump_bucket(key, num_buckets as nat),
        decreases num_buckets - b,
    {
        k = advance(k);
        let j: u128 = next_bucket(k, b);
        proof {
            lemma_jump_target_advances(k, b as nat);
        }
        if j < num_buckets as u128 {
            b = j as u32;
        } else {
            return b;
        }
    }
}

/// Controls how objects are placed and replicated across shards.
pub struct ReplicationPolicy {
    replication_factor: usize,
}

/// A requested replication factor, brought into `1..=shard_count` (into `1` when
/// there is no shard).
pub open spec fn clamp_factor(replication_factor: nat, shard_count: nat) -> nat {
    if replication_factor == 0 || shard_count == 0 {
        1
    } else if replication_factor <= shard_count {
        replication_factor
    } else {
        shard_count
    }
}

impl ReplicationPolicy {
    #[verifier::type_invariant]
    spec fn inv(&self) -> bool {
        self.replication_factor >= 1
    }

    /// The number of copies of each object.
    pub closed spec fn spec_factor(&self) -> nat {
        self.replication_factor as nat
    }

    pub fn new(replication_factor: usize, shard_count: usize) -> (policy: Self)
        ensures
            policy.spec_factor() == clamp_factor(replication_factor as nat, shard_count as nat),
    {
        let capped: usize = if replication_factor <= shard_count {
            replication_factor
        } else {
            shard_count
        };
        Self { replication_factor: if capped >= 1 { capped } else { 1 } }
    }

    /// How many copies of each object.
    pub fn factor(&self) -> (factor: usize)
        ensures
            factor == self.spec_factor(),
            factor >= 1,
    {
        proof {
            use_type_invariant(self);
        }
        self.replication_factor
    }
}

/// The walk reaches no further with a smaller bound: it stops in the same bucket,
/// or in one that only the larger bound admits.
proof fn lemma_jump_walk_bound(key: u64, b: nat, n: nat)
    requires
        b < n < 0x1_0000_0000,
    ensures
        jump_walk(key, b, n) < n,
        jump_walk(key, b, n + 1) == jump_walk(key, b, n) || jump_walk(key, b, n + 1) == n,
    decreases n - b,
{
    let k = next_key(key);
    let j = jump_target(k, b);
    lemma_jump_target_advances(k, b);
    if j < n {
        lemma_jump_walk_bound(k, j, n);
    } else if j == n {
        lemma_jump_target_advances(next_key(k), n);
        assert(jump_walk(k, n, n + 1) == n);
    }
}

/// Adding a bucket moves a key to the new bucket or leaves it where it was.
pub proof fn jump_hash_moves_only_to_the_new_bucket(key: u64, n: nat)
    requires
        0 < n < u32::MAX,
    ensures
        jump_bucket(key, n) < n,
        jump_bucket(key, n + 1) == jump_bucket(key, n) || jump_bucket(key, n + 1) == n,
{
    lemma_jump_walk_bound(key, 0, n);
}

/// Growing from `n` to `m` buckets never moves a key between two of the first `n`.
pub proof fn jump_hash_is_stable_on_growth(key: u64, n: nat, m: nat)
    requires
        0 < n <= m <= u32::MAX,
    ensures
        jump_bucket(key, m) == jump_bucket(key, n) || jump_bucket(key, m) >= n,
    decreases m - n,
{
    if n < m {
        jump_hash_is_stable_on_growth(key, n, (m - 1) as nat);
        jump_hash_moves_only_to_the_new_bucket(key, (m - 1) as nat);
    }
}

/// A number of copies is brought as little as possible out of what was asked for: it stays
/// as it is if it is positive and there are enough shards, there is always one copy, never
/// more than there are shards if there are any, and asking for more never gives less.
pub proof fn a_factor_is_changed_only_as_far_as_it_must(asked: nat, more: nat, shards: nat)
    requires
        asked <= more,
    ensures
        clamp_factor(asked, shards) >= 1,
        shards > 0 ==> clamp_factor(asked, shards) <= shards,
        1 <= asked <= shards ==> clamp_factor(asked, shards) == asked,
        asked >= shards > 0 ==> clamp_factor(asked, shards) == shards,
        asked == 0 || shards == 0 ==> clamp_factor(asked, shards) == 1,
        clamp_factor(asked, shards) <= clamp_factor(more, shards),
        clamp_factor(clamp_factor(asked, shards), shards) == clamp_factor(asked, shards),
{
}

} // verus!

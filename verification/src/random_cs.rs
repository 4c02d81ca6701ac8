use vstd::prelude::*;
use vstd::arithmetic::div_mod::*;
use vstd::arithmetic::power2::*;
use vstd::arithmetic::mul::*;
use crate::key_bruteforce::{attempt_offset, attempt_time, client_seed, prefix_ok, drawn_session_seed, stamp_around, lemma_xor_solves};
use crate::mtkey::{Mtkey, key_stream, xor_with_key, lemma_key_stream_len};

verus! {

/// Largest value a sample can take, plus one.
pub const MBIG: i32 = 2147483647;

/// Constant the seed is subtracted from.
pub const MSEED: i32 = 161803398;

/// Number of slots of the seed table (slot 0 is never used by sampling).
pub const TABLE_LEN: usize = 56;

/// Mantissa of the double nearest to `1 / MBIG`: that double is
/// `RECIP_MANTISSA / 2^83`.
pub const RECIP_MANTISSA: u128 = 4503599629467648;

/// Abstract state of the generator: its two constants, the seed table and the
/// two read positions.
pub ghost struct RandomState {
    pub m_big: int,
    pub m_seed: int,
    pub seeds: Seq<i32>,
    pub inext: int,
    pub inextp: int,
}

/// The magnitude of `seed` subtracted from `MSEED` (`i32::MIN` counts as `i32::MAX`).
pub open spec fn seed_magnitude(seed: i32) -> int {
    if seed == i32::MIN {
        i32::MAX as int
    } else if seed < 0 {
        -(seed as int)
    } else {
        seed as int
    }
}

/// Values carried through the first seeding pass.
pub ghost struct SeedingState {
    pub seeds: Seq<i32>,
    pub mj: int,
    pub mk: int,
}

pub open spec fn seeding_start(seed: i32) -> SeedingState {
    let mj = MSEED - seed_magnitude(seed);
    SeedingState {
        seeds: Seq::new(TABLE_LEN as nat, |j: int| if j == 55 { mj as i32 } else { 0i32 }),
        mj,
        mk: 1,
    }
}

/// The state of the first seeding pass after `n` of its steps.
pub open spec fn seeding_after(seed: i32, n: nat) -> SeedingState
    decreases n,
{
    if n == 0 {
        seeding_start(seed)
    } else {
        let s = seeding_after(seed, (n - 1) as nat);
        let ii = (21 * n) % 55;
        let d = s.mj - s.mk;
        SeedingState {
            seeds: s.seeds.update(ii as int, s.mk as i32),
            mj: s.mk,
            mk: if d < 0 { d + MBIG } else { d },
        }
    }
}

proof fn lemma_seeding_by_magnitude(a: i32, b: i32, n: nat)
    requires
        seed_magnitude(a) == seed_magnitude(b),
    ensures
        seeding_after(a, n) == seeding_after(b, n),
    decreases n,
{
    if n > 0 {
        lemma_seeding_by_magnitude(a, b, (n - 1) as nat);
    } else {
        assert(seeding_start(a).seeds =~= seeding_start(b).seeds);
    }
}

/// Seeds of the same magnitude seed the same generator: the sign of a seed
/// is ignored, and `i32::MIN` counts as `i32::MAX`.
pub proof fn lemma_seeded_state_by_magnitude(a: i32, b: i32)
    requires
        seed_magnitude(a) == seed_magnitude(b),
    ensures
        seeded_state(a) == seeded_state(b),
{
    lemma_seeding_by_magnitude(a, b, 54);
}

/// Brings a negative value back into range by adding `MBIG`.
pub open spec fn lift(x: i32) -> i32 {
    if x < 0 { (x + MBIG) as i32 } else { x }
}

/// Slot that slot `i` is combined with in the second seeding pass.
pub open spec fn partner(i: int) -> int {
    1 + (i + 30) % 55
}

/// One step of the second seeding pass, on slot `i`.
pub open spec fn mix_step(a: Seq<i32>, i: int) -> Seq<i32> {
    a.update(i, lift(vstd::wrapping::i32_specs::wrapping_sub(a[i], a[partner(i)])))
}

/// The table after `t` steps of the second pass; step `t` works on slot `t % 55 + 1`.
pub open spec fn mixed(a: Seq<i32>, t: nat) -> Seq<i32>
    decreases t,
{
    if t == 0 {
        a
    } else {
        mix_step(mixed(a, (t - 1) as nat), ((t - 1) % 55) as int + 1)
    }
}

/// The generator state right after seeding with `seed`.
pub open spec fn seeded_state(seed: i32) -> RandomState {
    RandomState {
        m_big: MBIG as int,
        m_seed: MSEED as int,
        seeds: mixed(seeding_after(seed, 54).seeds, 220),
        inext: 0,
        inextp: 21,
    }
}

/// The read position after `p`: one further, wrapping from 55 back to 1.
pub open spec fn next_pos(p: int) -> int {
    if p + 1 >= 56 { 1 } else { p + 1 }
}

/// A sample drawn from slots `a` and `b`.
pub open spec fn sample_of(seeds: Seq<i32>, a: int, b: int) -> i32 {
    let r = vstd::wrapping::i32_specs::wrapping_sub(seeds[a], seeds[b]);
    lift(if r == MBIG { (r - 1) as i32 } else { r })
}

/// The sample the next draw returns.
pub open spec fn next_sample(s: RandomState) -> i32 {
    sample_of(s.seeds, next_pos(s.inext), next_pos(s.inextp))
}

/// The state after one draw: only the read positions move.
pub open spec fn after_sample(s: RandomState) -> RandomState {
    RandomState { inext: next_pos(s.inext), inextp: next_pos(s.inextp), ..s }
}

/// The state after `n` draws.
pub open spec fn after_samples(s: RandomState, n: nat) -> RandomState
    decreases n,
{
    if n == 0 {
        s
    } else {
        after_sample(after_samples(s, (n - 1) as nat))
    }
}

/// Number of times `p` must be halved to fit in 53 bits.
pub open spec fn halvings(p: nat) -> nat
    decreases p,
{
    if p < pow2(53) {
        0
    } else {
        proof {
            lemma_pow2_pos(53);
        }
        1 + halvings(p / 2)
    }
}

/// `p` rounded to 53 significant bits, ties to even: the value a double keeps
/// of an exact product.
pub open spec fn round_to_double(p: nat) -> nat {
    let d = pow2(halvings(p));
    let q = p / d;
    let r = p % d;
    let up = d > 1 && (r > d / 2 || (r == d / 2 && q % 2 == 1));
    (if up { q + 1 } else { q }) * d
}

/// The 64-bit value a sample is scaled to: the sample times the double
/// nearest `1 / MBIG`, rounded to a double, times `2^64`, truncated.
pub open spec fn scaled_sample(s: i32) -> nat {
    if s <= 0 {
        0
    } else {
        round_to_double((s as nat) * (RECIP_MANTISSA as nat)) / pow2(19)
    }
}

proof fn lemma_seeding_bounds(seed: i32, n: nat)
    ensures
        seeding_after(seed, n).seeds.len() == TABLE_LEN,
        n == 0 ==> seeding_after(seed, n).mk == 1 && seeding_after(seed, n).mj == MSEED
            - seed_magnitude(seed),
        n > 0 ==> 0 <= seeding_after(seed, n).mk < MBIG && 0 <= seeding_after(seed, n).mj < MBIG,
    decreases n,
{
    if n > 0 {
        lemma_seeding_bounds(seed, (n - 1) as nat);
    }
}

proof fn lemma_mixed_len(a: Seq<i32>, t: nat)
    requires
        a.len() == TABLE_LEN,
    ensures
        mixed(a, t).len() == TABLE_LEN,
    decreases t,
{
    if t > 0 {
        lemma_mixed_len(a, (t - 1) as nat);
    }
}

/// The subtractive generator of the .NET runtime, as seeded by `Random(int)`.
pub struct Random {
    m_big: i32,
    m_seed: i32,
    inext: i32,
    inextp: i32,
    seed_array: [i32; 56],
}

impl View for Random {
    type V = RandomState;

    closed spec fn view(&self) -> RandomState {
        RandomState {
            m_big: self.m_big as int,
            m_seed: self.m_seed as int,
            seeds: self.seed_array@,
            inext: self.inext as int,
            inextp: self.inextp as int,
        }
    }
}

impl Random {
    #[verifier::type_invariant]
    closed spec fn inv(self) -> bool {
        &&& self.m_big == MBIG
        &&& self.m_seed == MSEED
        &&& 0 <= self.inext <= 55
        &&& 0 <= self.inextp <= 55
    }

    fn default() -> (r: Random)
        ensures
            r@.seeds == Seq::new(TABLE_LEN as nat, |j: int| 0i32),
            r@.inext == 0,
            r@.inextp == 0,
            r@.m_big == MBIG,
            r@.m_seed == MSEED,
    {
        let r = Random { m_big: MBIG, m_seed: MSEED, inext: 0, inextp: 0, seed_array: [0i32; 56] };
        assert(r@.seeds =~= Seq::new(TABLE_LEN as nat, |j: int| 0i32));
        r
    }

    /// A generator seeded from the milliseconds elapsed since an instant taken
    /// just before.
    pub fn new() -> (r: Random)
        ensures
            exists|seed: i32| r@ == seeded_state(seed),
    {
        let start = instant_now();
        let elapsed = instant_elapsed(&start);
        let millis = duration_as_millis(&elapsed);
        Random::with_seed(millis as i32)
    }

    /// A generator seeded with `seed`, as `Random(seed)` seeds it.
    pub fn with_seed(seed: i32) -> (r: Random)
        ensures
            r@ == seeded_state(seed),
    {
        let mut rand = Random::default();
        let subtraction: i32 = if seed == i32::MIN {
            i32::MAX
        } else if seed < 0 {
            -seed
        } else {
            seed
        };
        let mut mj: i32 = rand.m_seed - subtraction;
        rand.seed_array[55] = mj;
        let mut mk: i32 = 1;
        proof {
            lemma_seeding_bounds(seed, 0);
            assert(rand.seed_array@ =~= seeding_start(seed).seeds);
        }
        let mut i: usize = 1;
        while i < 55
            invariant
                1 <= i <= 55,
                rand.seed_array@ == seeding_after(seed, (i - 1) as nat).seeds,
                mj as int == seeding_after(seed, (i - 1) as nat).mj,
                mk as int == seeding_after(seed, (i - 1) as nat).mk,
                rand.inext == 0,
                rand.inextp == 0,
                rand.m_big == MBIG,
                rand.m_seed == MSEED,
            decreases 55 - i,
        {
            proof {
                lemma_seeding_bounds(seed, (i - 1) as nat);
                lemma_seeding_bounds(seed, i as nat);
            }
            let ii = 21 * i % 55;
            rand.seed_array[ii] = mk;
            mk = mj - mk;
            if mk < 0 {
                mk = mk + MBIG;
            }
            mj = rand.seed_array[ii];
            assert(rand.seed_array@ =~= seeding_after(seed, i as nat).seeds);
            i = i + 1;
        }
        let ghost start = rand.seed_array@;
        proof {
            lemma_seeding_bounds(seed, 54);
        }
        let mut pass: usize = 1;
        let ghost mut t: nat = 0;
        while pass < 5
            invariant
                1 <= pass <= 5,
                t == (pass - 1) * 55,
                start.len() == TABLE_LEN,
                rand.seed_array@ == mixed(start, t),
                rand.inext == 0,
                rand.inextp == 0,
                rand.m_big == MBIG,
                rand.m_seed == MSEED,
            decreases 5 - pass,
        {
            let mut i: usize = 1;
            while i < 56
                invariant
                    1 <= i <= 56,
                    t == (pass - 1) * 55 + (i - 1),
                    start.len() == TABLE_LEN,
                    rand.seed_array@ == mixed(start, t),
                    rand.inext == 0,
                    rand.inextp == 0,
                    rand.m_big == MBIG,
                    rand.m_seed == MSEED,
                    1 <= pass < 5,
                decreases 56 - i,
            {
                proof {
                    lemma_mixed_len(start, t);
                    assert((t % 55) as int + 1 == i) by {
                        assert(t == (pass - 1) * 55 + (i - 1));
                        lemma_fundamental_div_mod_converse(t as int, 55, (pass - 1) as int, (i - 1) as int);
                    }
                }
                let v = rand.seed_array[i].wrapping_sub(rand.seed_array[1 + (i + 30) % 55]);
                rand.seed_array[i] = v;
                if rand.seed_array[i] < 0 {
                    rand.seed_array[i] = rand.seed_array[i] + MBIG;
                }
                proof {
                    t = t + 1;
                }
                assert(rand.seed_array@ =~= mixed(start, t));
                i = i + 1;
            }
            pass = pass + 1;
        }
        rand.inext = 0;
        rand.inextp = 21;
        rand
    }

    /// Draws the next raw sample, in `[-1, MBIG)`.
    pub fn internal_sample(&mut self) -> (r: i32)
        ensures
            r == next_sample(old(self)@),
            final(self)@ == after_sample(old(self)@),
    {
        proof {
            use_type_invariant(&*self);
        }
        let mut loc_inext = self.inext + 1;
        if loc_inext >= 56 {
            loc_inext = 1;
        }
        let mut loc_inextp = self.inextp + 1;
        if loc_inextp >= 56 {
            loc_inextp = 1;
        }
        let mut ret_val = self.seed_array[loc_inext as usize].wrapping_sub(
            self.seed_array[loc_inextp as usize],
        );
        if ret_val == MBIG {
            ret_val = ret_val - 1;
        }
        if ret_val < 0 {
            ret_val = ret_val + MBIG;
        }
        self.inext = loc_inext;
        self.inextp = loc_inextp;
        ret_val
    }

    /// Draws the next sample scaled to the whole 64-bit range, as the .NET
    /// `NextDouble() * ulong.MaxValue` converted to an unsigned integer.
    pub fn next_safe_uint64(&mut self) -> (r: u64)
        ensures
            r as nat == scaled_sample(next_sample(old(self)@)),
            final(self)@ == after_sample(old(self)@),
    {
        let s = self.internal_sample();
        scale_sample(s)
    }
}

proof fn lemma_halvings_step(p: nat, k: nat, d: nat)
    requires
        d == pow2(k),
        halvings(p) == k + halvings(p / d),
        p / d >= pow2(53),
    ensures
        halvings(p) == (k + 1) + halvings(p / (d * 2)),
        d * 2 == pow2(k + 1),
{
    lemma_pow2_pos(k);
    lemma_pow2_unfold(k + 1);
    lemma_div_denominator(p as int, d as int, 2);
    assert(halvings(p / d) == 1 + halvings((p / d) / 2));
}

/// Scales a sample as the double arithmetic does, without leaving integers.
fn scale_sample(s: i32) -> (r: u64)
    requires
        s < MBIG,
    ensures
        r as nat == scaled_sample(s),
{
    if s <= 0 {
        return 0;
    }
    let p: u128 = (s as u128) * RECIP_MANTISSA;
    let limit: u128 = 0x20000000000000;
    proof {
        lemma2_to64();
        lemma2_to64_rest();
        assert(pow2(53) == 0x20000000000000) by {
            lemma_pow2_adds(32, 21);
        }
        assert(pow2(19) == 0x80000) by {
            lemma2_to64();
        }
        assert(p <= 2147483646 * 4503599629467648) by (nonlinear_arith)
            requires
                p == (s as u128) * 4503599629467648,
                0 < s < 2147483647,
        ;
    }
    let mut d: u128 = 1;
    let ghost mut k: nat = 0;
    while p / d >= limit
        invariant
            d == pow2(k),
            d >= 1,
            d <= 0x80000000,
            halvings(p as nat) == k + halvings((p / d) as nat),
            p <= 2147483646 * 4503599629467648,
            limit == pow2(53),
            limit == 0x20000000000000,
        decreases p / d,
    {
        proof {
            lemma_halvings_step(p as nat, k, d as nat);
            lemma_divisor_small(p as nat, d as nat, limit as nat);
            assert(d <= 0x7fffffff) by (nonlinear_arith)
                requires
                    d * 0x20000000000000 <= p,
                    p <= 2147483646 * 4503599629467648,
            ;
            lemma_div_denominator(p as int, d as int, 2);
            k = k + 1;
        }
        d = d * 2;
    }
    let q = p / d;
    let rem = p % d;
    let half = d / 2;
    let up = d > 1 && (rem > half || (rem == half && q % 2 == 1));
    let q2 = if up { q + 1 } else { q };
    proof {
        assert(halvings((p / d) as nat) == 0);
        assert(halvings(p as nat) == k);
        lemma_fundamental_div_mod(p as int, d as int);
        lemma_mod_bound(p as int, d as int);
        assert(d <= 0x80000000);
        assert(q2 * d <= p + d) by (nonlinear_arith)
            requires
                p == d * q + rem,
                0 <= rem,
                q2 <= q + 1,
                d >= 1,
        ;
    }
    let v = q2 * d;
    let r = v / 0x80000;
    assert(r <= 0xffffffffffffffff);
    r as u64
}

/// After `halvings(p)` halvings `p` fits in 53 bits, and one halving fewer
/// it did not.
proof fn lemma_halvings_bounds(p: nat)
    ensures
        p / pow2(halvings(p)) < pow2(53),
        halvings(p) > 0 ==> p / pow2((halvings(p) - 1) as nat) >= pow2(53),
    decreases p,
{
    lemma2_to64();
    lemma_pow2_pos(53);
    if p >= pow2(53) {
        let h = halvings(p / 2);
        lemma_halvings_bounds(p / 2);
        lemma_pow2_pos(h);
        lemma_pow2_unfold(h + 1);
        lemma_div_denominator(p as int, 2, pow2(h) as int);
        assert(p / pow2(h + 1) == (p / 2) / pow2(h));
        assert(halvings(p) == h + 1);
        if h > 0 {
            lemma_pow2_unfold(h);
            lemma_pow2_pos((h - 1) as nat);
            lemma_div_denominator(p as int, 2, pow2((h - 1) as nat) as int);
            assert(p / pow2(h) == (p / 2) / pow2((h - 1) as nat));
        } else {
            assert(pow2(0) == 1);
            assert(p / 1 == p);
        }
        assert(p / pow2(h) >= pow2(53));
    }
}

proof fn lemma_halvings_monotone(p1: nat, p2: nat)
    requires
        p1 <= p2,
    ensures
        halvings(p1) <= halvings(p2),
    decreases p2,
{
    lemma_pow2_pos(53);
    if p1 >= pow2(53) {
        lemma_div_is_ordered(p1 as int, p2 as int, 2);
        lemma_halvings_monotone(p1 / 2, p2 / 2);
    }
}

/// Rounding to a double never turns a smaller product into a larger value.
pub proof fn lemma_round_to_double_monotone(p1: nat, p2: nat)
    requires
        p1 <= p2,
    ensures
        round_to_double(p1) <= round_to_double(p2),
{
    let k1 = halvings(p1);
    let k2 = halvings(p2);
    lemma_halvings_monotone(p1, p2);
    lemma_halvings_bounds(p1);
    lemma_halvings_bounds(p2);
    let d1 = pow2(k1);
    let d2 = pow2(k2);
    lemma_pow2_pos(k1);
    lemma_pow2_pos(k2);
    let q1 = p1 / d1;
    let q2 = p2 / d2;
    let r1 = p1 % d1;
    let r2 = p2 % d2;
    let up1 = d1 > 1 && (r1 > d1 / 2 || (r1 == d1 / 2 && q1 % 2 == 1));
    let up2 = d2 > 1 && (r2 > d2 / 2 || (r2 == d2 / 2 && q2 % 2 == 1));
    let big1: nat = if up1 { q1 + 1 } else { q1 };
    let big2: nat = if up2 { q2 + 1 } else { q2 };
    assert(round_to_double(p1) == big1 * d1);
    assert(round_to_double(p2) == big2 * d2);
    if k1 == k2 {
        lemma_div_is_ordered(p1 as int, p2 as int, d1 as int);
        if q1 < q2 {
            lemma_mul_inequality(big1 as int, q2 as int, d1 as int);
            lemma_mul_inequality(q2 as int, big2 as int, d1 as int);
        } else {
            lemma_fundamental_div_mod(p1 as int, d1 as int);
            lemma_fundamental_div_mod(p2 as int, d1 as int);
            assert(r1 <= r2);
            assert(up1 ==> up2);
            lemma_mul_inequality(big1 as int, big2 as int, d1 as int);
        }
    } else {
        assert(k1 < k2);
        assert(big1 <= pow2(53));
        lemma_mul_inequality(big1 as int, pow2(53) as int, d1 as int);
        lemma_pow2_adds(53, k1);
        lemma_pow2_unfold(k2);
        lemma_div_denominator(p2 as int, pow2((k2 - 1) as nat) as int, 2);
        lemma_pow2_unfold(53);
        assert(q2 >= pow2(52)) by {
            lemma_mul_is_commutative_int(pow2((k2 - 1) as nat) as int, 2);
        }
        lemma_mul_inequality(pow2(52) as int, q2 as int, d2 as int);
        lemma_mul_inequality(q2 as int, big2 as int, d2 as int);
        lemma_pow2_adds(52, k2);
        if 53 + k1 < 52 + k2 {
            lemma_pow2_strictly_increases(53 + k1, 52 + k2);
        }
    }
}

/// Scaling keeps the order of samples: a larger sample never scales to a
/// smaller 64-bit value.
pub proof fn lemma_scaled_sample_monotone(a: i32, b: i32)
    requires
        a <= b,
    ensures
        scaled_sample(a) <= scaled_sample(b),
{
    if a > 0 {
        let pa = (a as nat) * (RECIP_MANTISSA as nat);
        let pb = (b as nat) * (RECIP_MANTISSA as nat);
        lemma_mul_inequality(a as int, b as int, RECIP_MANTISSA as int);
        lemma_round_to_double_monotone(pa, pb);
        lemma_pow2_pos(19);
        lemma_div_is_ordered(round_to_double(pa) as int, round_to_double(pb) as int, pow2(19) as int);
    }
}

proof fn lemma_mul_is_commutative_int(a: int, b: int)
    ensures
        a * b == b * a,
{
}

/// A divisor that leaves a quotient of at least `limit` is at most `p / limit`.
proof fn lemma_divisor_small(p: nat, d: nat, limit: nat)
    requires
        d >= 1,
        p / d >= limit,
    ensures
        d * limit <= p,
{
    lemma_fundamental_div_mod(p as int, d as int);
    lemma_mod_bound(p as int, d as int);
    assert(d * limit <= d * (p / d)) by (nonlinear_arith)
        requires
            limit <= p / d,
            d >= 1,
    ;
}

/// The read position after `k` steps from `p`.
pub open spec fn pos_after(p: int, k: nat) -> int
    decreases k,
{
    if k == 0 {
        p
    } else {
        next_pos(pos_after(p, (k - 1) as nat))
    }
}

proof fn lemma_pos_after(p: int, k: nat)
    requires
        0 <= p <= 55,
        k >= 1 || p >= 1,
    ensures
        pos_after(p, k) == (p - 1 + k) % 55 + 1,
    decreases k,
{
    if k == 0 {
        lemma_small_mod((p - 1) as nat, 55);
        assert(pos_after(p, k) == p);
        assert((p - 1 + k) % 55 == p - 1);
    } else if k == 1 && p == 0 {
        lemma_small_mod(0, 55);
        assert(pos_after(p, 0) == 0);
        assert(pos_after(p, 1) == 1);
    } else {
        lemma_pos_after(p, (k - 1) as nat);
        let x = p - 1 + k - 1;
        lemma_add_mod_noop(x, 1, 55);
        lemma_mod_bound(x, 55);
        let m = x % 55;
        lemma_small_mod(1, 55);
        assert(pos_after(p, (k - 1) as nat) == m + 1);
        assert((x + 1) % 55 == (m + 1) % 55);
        assert(pos_after(p, k) == next_pos(m + 1));
        if m < 54 {
            lemma_small_mod((m + 1) as nat, 55);
            assert(next_pos(m + 1) == m + 2);
        } else {
            lemma_mod_self_0(55);
            assert(next_pos(m + 1) == 1);
        }
    }
}

proof fn lemma_after_samples_positions(s: RandomState, n: nat)
    ensures
        after_samples(s, n).seeds == s.seeds,
        after_samples(s, n).inext == pos_after(s.inext, n),
        after_samples(s, n).inextp == pos_after(s.inextp, n),
    decreases n,
{
    if n > 0 {
        lemma_after_samples_positions(s, (n - 1) as nat);
    }
}

/// Drawing never changes the seed table: only the read positions move.
pub proof fn lemma_draws_keep_table(s: RandomState, n: nat)
    ensures
        after_samples(s, n).seeds == s.seeds,
{
    lemma_after_samples_positions(s, n);
}

/// A draw reads the slots after the two read positions (wrapping from 55 back
/// to 1) and returns the difference of their values: where both lie in
/// `0..MBIG`, that difference is brought into `0..MBIG` by adding `MBIG` when
/// negative, and the read positions move on to those slots.
pub proof fn lemma_sample_in_range(s: RandomState)
    requires
        s.seeds.len() == 56,
        0 <= s.inext <= 55,
        0 <= s.inextp <= 55,
        forall|i: int| 1 <= i < 56 ==> 0 <= #[trigger] s.seeds[i] < 2147483647,
    ensures
        ({
            let a = if s.inext + 1 >= 56 { 1 } else { s.inext + 1 };
            let b = if s.inextp + 1 >= 56 { 1 } else { s.inextp + 1 };
            let diff = s.seeds[a] as int - s.seeds[b] as int;
            &&& next_sample(s) as int == if diff < 0 { diff + 2147483647 } else { diff }
            &&& 0 <= next_sample(s) < 2147483647
            &&& after_sample(s).inext == a
            &&& after_sample(s).inextp == b
            &&& after_sample(s).seeds == s.seeds
        }),
{
}

/// The samples repeat every 55 draws: a draw reads two slots of a table that
/// no draw changes, and the read positions cycle through the 55 slots.
pub proof fn lemma_samples_repeat(s: RandomState, n: nat)
    requires
        0 <= s.inext <= 55,
        0 <= s.inextp <= 55,
    ensures
        next_sample(after_samples(s, n + 55)) == next_sample(after_samples(s, n)),
{
    lemma_after_samples_positions(s, n);
    lemma_after_samples_positions(s, n + 55);
    lemma_after_samples_positions(s, n + 1);
    lemma_after_samples_positions(s, n + 56);
    lemma_pos_after(s.inext, n + 1);
    lemma_pos_after(s.inext, n + 56);
    lemma_pos_after(s.inextp, n + 1);
    lemma_pos_after(s.inextp, n + 56);
    assert((s.inext - 1 + (n + 56)) % 55 == (s.inext - 1 + (n + 1)) % 55) by {
        lemma_mod_add_multiples_vanish(s.inext - 1 + (n + 1), 55);
    }
    assert((s.inextp - 1 + (n + 56)) % 55 == (s.inextp - 1 + (n + 1)) % 55) by {
        lemma_mod_add_multiples_vanish(s.inextp - 1 + (n + 1), 55);
    }
}

/// A seed found by the one-shot search gives a key that turns the first two
/// bytes of `bytes` into the head magic.
pub proof fn lemma_search_finds_head(sent_time: u64, server_seed: u64, bytes: Seq<u8>, i: nat)
    requires
        bytes.len() >= 2,
        first_prefix_match(sent_time, server_seed, bytes, i) is Some,
    ensures
        ({
            let key = key_stream(first_prefix_match(sent_time, server_seed, bytes, i)->0);
            let plain = xor_with_key(bytes, key);
            plain[0] == 0x45u8 && plain[1] == 0x67u8
        }),
    decreases SEARCH_ATTEMPTS - i,
{
    let seed = client_seed(attempt_time(sent_time, i as int), 0) ^ server_seed;
    if prefix_ok(key_stream(seed), bytes) {
        let key = key_stream(seed);
        lemma_key_stream_len(seed);
        let b0 = bytes[0];
        let b1 = bytes[1];
        assert((b0 ^ (b0 ^ 0x45u8)) == 0x45u8) by (bit_vector);
        assert((b1 ^ (b1 ^ 0x67u8)) == 0x67u8) by (bit_vector);
        assert(0int % (key.len() as int) == 0);
        assert(1int % (key.len() as int) == 1);
    } else {
        lemma_search_finds_head(sent_time, server_seed, bytes, i + 1);
    }
}

/// Number of time stamps the one-shot search tries around the send time.
pub const SEARCH_ATTEMPTS: usize = 1000;

/// The first of the attempts `i..SEARCH_ATTEMPTS` whose first client seed,
/// combined with `server_seed`, gives a key that turns the first two bytes of
/// `bytes` into a frame's head magic.
pub open spec fn first_prefix_match(sent_time: u64, server_seed: u64, bytes: Seq<u8>, i: nat) -> Option<u64>
    decreases SEARCH_ATTEMPTS - i,
{
    if i >= SEARCH_ATTEMPTS {
        None
    } else {
        let seed = client_seed(attempt_time(sent_time, i as int), 0) ^ server_seed;
        if prefix_ok(key_stream(seed), bytes) {
            Some(seed)
        } else {
            first_prefix_match(sent_time, server_seed, bytes, i + 1)
        }
    }
}

/// Decrypting `bytes` with `key` gives the head magic in the first two bytes.
#[verifier::opaque]
pub open spec fn decrypts_to_frame_head(key: Seq<u8>, bytes: Seq<u8>) -> bool {
    &&& key[0] ^ bytes[0] == 0x45u8
    &&& key[1] ^ bytes[1] == 0x67u8
}

proof fn lemma_attempt_pair(sent_time: u64, server_seed: u64, bytes: Seq<u8>, m: nat)
    requires
        bytes.len() >= 2,
    ensures
        attempt_time(sent_time, 2 * m as int) == stamp_around(sent_time, m, false),
        attempt_time(sent_time, 2 * m as int + 1) == stamp_around(sent_time, m, true),
        prefix_ok(key_stream(client_seed(attempt_time(sent_time, 2 * m as int), 0) ^ server_seed), bytes)
            == decrypts_to_frame_head(key_stream(drawn_session_seed(stamp_around(sent_time, m, false), server_seed, 0)), bytes),
        prefix_ok(key_stream(client_seed(attempt_time(sent_time, 2 * m as int + 1), 0) ^ server_seed), bytes)
            == decrypts_to_frame_head(key_stream(drawn_session_seed(stamp_around(sent_time, m, true), server_seed, 0)), bytes),
        client_seed(attempt_time(sent_time, 2 * m as int), 0) ^ server_seed == drawn_session_seed(stamp_around(sent_time, m, false), server_seed, 0),
        client_seed(attempt_time(sent_time, 2 * m as int + 1), 0) ^ server_seed == drawn_session_seed(stamp_around(sent_time, m, true), server_seed, 0),
{
    reveal(drawn_session_seed);
    reveal(decrypts_to_frame_head);
    assert((2 * m) % 2 == 0 && (2 * m) / 2 == m) by (nonlinear_arith);
    assert((2 * m + 1) % 2 == 1 && (2 * m + 1 - 1) / 2 == m) by (nonlinear_arith);
    let ka = key_stream(drawn_session_seed(stamp_around(sent_time, m, false), server_seed, 0));
    let kb = key_stream(drawn_session_seed(stamp_around(sent_time, m, true), server_seed, 0));
    lemma_xor_solves(ka[0], bytes[0], 0x45u8);
    lemma_xor_solves(ka[1], bytes[1], 0x67u8);
    lemma_xor_solves(kb[0], bytes[0], 0x45u8);
    lemma_xor_solves(kb[1], bytes[1], 0x67u8);
}

proof fn lemma_search_pairs(sent_time: u64, server_seed: u64, bytes: Seq<u8>, m: nat)
    requires
        bytes.len() >= 2,
        m <= 500,
    ensures
        (forall|j: nat, before: bool|
            m <= j < 500 ==> !decrypts_to_frame_head(
                key_stream(drawn_session_seed(#[trigger] stamp_around(sent_time, j, before), server_seed, 0)),
                bytes,
            )) ==> first_prefix_match(sent_time, server_seed, bytes, 2 * m) is None,
        forall|j: nat, before: bool|
            m <= j < 500 && decrypts_to_frame_head(
                key_stream(drawn_session_seed(#[trigger] stamp_around(sent_time, j, before), server_seed, 0)),
                bytes,
            ) && (before ==> !decrypts_to_frame_head(
                key_stream(drawn_session_seed(stamp_around(sent_time, j, false), server_seed, 0)),
                bytes,
            )) && (forall|i: nat, b: bool|
                m <= i < j ==> !decrypts_to_frame_head(
                    key_stream(drawn_session_seed(#[trigger] stamp_around(sent_time, i, b), server_seed, 0)),
                    bytes,
                )) ==> first_prefix_match(sent_time, server_seed, bytes, 2 * m) == Some(
                drawn_session_seed(stamp_around(sent_time, j, before), server_seed, 0),
            ),
    decreases 500 - m,
{
    if m < 500 {
        lemma_search_pairs(sent_time, server_seed, bytes, m + 1);
        lemma_search_step(sent_time, server_seed, bytes, m);
        let sa = drawn_session_seed(stamp_around(sent_time, m, false), server_seed, 0);
        let sb = drawn_session_seed(stamp_around(sent_time, m, true), server_seed, 0);
        let ha = decrypts_to_frame_head(key_stream(sa), bytes);
        let hb = decrypts_to_frame_head(key_stream(sb), bytes);
        let rest = first_prefix_match(sent_time, server_seed, bytes, 2 * (m + 1));
        let here = first_prefix_match(sent_time, server_seed, bytes, 2 * m);
        assert forall|j: nat, before: bool|
            m <= j < 500 && decrypts_to_frame_head(
                key_stream(drawn_session_seed(#[trigger] stamp_around(sent_time, j, before), server_seed, 0)),
                bytes,
            ) && (before ==> !decrypts_to_frame_head(
                key_stream(drawn_session_seed(stamp_around(sent_time, j, false), server_seed, 0)),
                bytes,
            )) && (forall|i: nat, b: bool|
                m <= i < j ==> !decrypts_to_frame_head(
                    key_stream(drawn_session_seed(#[trigger] stamp_around(sent_time, i, b), server_seed, 0)),
                    bytes,
                )) implies here == Some(drawn_session_seed(stamp_around(sent_time, j, before), server_seed, 0)) by {
            if j > m {
                assert(!ha && !hb) by {
                    assert(!decrypts_to_frame_head(
                        key_stream(drawn_session_seed(stamp_around(sent_time, m, false), server_seed, 0)),
                        bytes,
                    ));
                    assert(!decrypts_to_frame_head(
                        key_stream(drawn_session_seed(stamp_around(sent_time, m, true), server_seed, 0)),
                        bytes,
                    ));
                }
            }
        }
        if forall|j: nat, before: bool|
            m <= j < 500 ==> !decrypts_to_frame_head(
                key_stream(drawn_session_seed(#[trigger] stamp_around(sent_time, j, before), server_seed, 0)),
                bytes,
            ) {
            assert(!decrypts_to_frame_head(
                key_stream(drawn_session_seed(stamp_around(sent_time, m, false), server_seed, 0)),
                bytes,
            ));
            assert(!decrypts_to_frame_head(
                key_stream(drawn_session_seed(stamp_around(sent_time, m, true), server_seed, 0)),
                bytes,
            ));
        }
    }
}

proof fn lemma_search_step(sent_time: u64, server_seed: u64, bytes: Seq<u8>, m: nat)
    requires
        bytes.len() >= 2,
        m < 500,
    ensures
        ({
            let sa = drawn_session_seed(stamp_around(sent_time, m, false), server_seed, 0);
            let sb = drawn_session_seed(stamp_around(sent_time, m, true), server_seed, 0);
            first_prefix_match(sent_time, server_seed, bytes, 2 * m) == if decrypts_to_frame_head(key_stream(sa), bytes) {
                Some(sa)
            } else if decrypts_to_frame_head(key_stream(sb), bytes) {
                Some(sb)
            } else {
                first_prefix_match(sent_time, server_seed, bytes, 2 * (m + 1))
            }
        }),
{
    lemma_attempt_pair(sent_time, server_seed, bytes, m);
    let i0: nat = 2 * m;
    let i1: nat = 2 * m + 1;
    let i2: nat = 2 * (m + 1);
    assert(i1 == i0 + 1 && i2 == i1 + 1);
    let s0 = client_seed(attempt_time(sent_time, i0 as int), 0) ^ server_seed;
    let s1 = client_seed(attempt_time(sent_time, i1 as int), 0) ^ server_seed;
    assert(first_prefix_match(sent_time, server_seed, bytes, i0) == if prefix_ok(key_stream(s0), bytes) {
        Some(s0)
    } else {
        first_prefix_match(sent_time, server_seed, bytes, i1)
    });
    assert(first_prefix_match(sent_time, server_seed, bytes, i1) == if prefix_ok(key_stream(s1), bytes) {
        Some(s1)
    } else {
        first_prefix_match(sent_time, server_seed, bytes, i2)
    });
}

/// The one-shot search tries, for each `j` below 500, the time stamp `j`
/// milliseconds after the send time and then the one `j` milliseconds before
/// it, taking the first client seed of each, and returns the first session
/// seed whose key decrypts the first two bytes to the head magic; where none
/// does, it returns `None`.
pub proof fn lemma_search_tries_both_sides(sent_time: u64, server_seed: u64, bytes: Seq<u8>)
    requires
        bytes.len() >= 2,
    ensures
        (forall|j: nat, before: bool|
            j < 500 ==> !decrypts_to_frame_head(
                key_stream(drawn_session_seed(#[trigger] stamp_around(sent_time, j, before), server_seed, 0)),
                bytes,
            )) ==> first_prefix_match(sent_time, server_seed, bytes, 0) is None,
        forall|j: nat, before: bool|
            j < 500 && decrypts_to_frame_head(
                key_stream(drawn_session_seed(#[trigger] stamp_around(sent_time, j, before), server_seed, 0)),
                bytes,
            ) && (before ==> !decrypts_to_frame_head(
                key_stream(drawn_session_seed(stamp_around(sent_time, j, false), server_seed, 0)),
                bytes,
            )) && (forall|i: nat, b: bool|
                i < j ==> !decrypts_to_frame_head(
                    key_stream(drawn_session_seed(#[trigger] stamp_around(sent_time, i, b), server_seed, 0)),
                    bytes,
                )) ==> first_prefix_match(sent_time, server_seed, bytes, 0) == Some(
                drawn_session_seed(stamp_around(sent_time, j, before), server_seed, 0),
            ),
{
    lemma_search_pairs(sent_time, server_seed, bytes, 0);
}

/// Searches the session seed of `bytes` from time stamps around `sent_time`,
/// checking only the head of the frame.
pub fn bruteforce(sent_time: u64, server_seed: u64, bytes: &[u8]) -> (r: Option<u64>)
    requires
        bytes@.len() >= 2,
    ensures
        r == first_prefix_match(sent_time, server_seed, bytes@, 0),
{
    let key_prefix = [bytes[0] ^ 0x45u8, bytes[1] ^ 0x67u8];
    let mut i: usize = 0;
    while i < SEARCH_ATTEMPTS
        invariant
            bytes@.len() >= 2,
            i <= SEARCH_ATTEMPTS,
            key_prefix@ == seq![bytes@[0] ^ 0x45u8, bytes@[1] ^ 0x67u8],
            first_prefix_match(sent_time, server_seed, bytes@, 0) == first_prefix_match(
                sent_time,
                server_seed,
                bytes@,
                i as nat,
            ),
        decreases SEARCH_ATTEMPTS - i,
    {
        let ii = i as i64;
        let offset: i64 = if ii % 2 == 0 {
            ii / 2
        } else {
            -(ii - 1) / 2
        };
        assert(offset == attempt_offset(i as int));
        let ts = (sent_time as i64).wrapping_add(offset);
        let rand_seed = ts as i32;
        let mut rand = Random::with_seed(rand_seed);
        let client_seed = rand.next_safe_uint64();
        let seed = client_seed ^ server_seed;
        let key = Mtkey::from_seed(seed);
        if key.keybuf[0] == key_prefix[0] && key.keybuf[1] == key_prefix[1] {
            return Some(seed);
        }
        i = i + 1;
    }
    None
}

/// The instant the clock reads now.
#[verifier::external_body]
fn instant_now() -> std::time::Instant {
    std::time::Instant::now()
}

/// The time elapsed since `start`, read from the clock.
#[verifier::external_body]
fn instant_elapsed(start: &std::time::Instant) -> std::time::Duration {
    start.elapsed()
}

/// Whole milliseconds of `d`.
#[verifier::external_body]
fn duration_as_millis(d: &std::time::Duration) -> (r: u128) {
    d.as_millis()
}

#[verifier::external_type_specification]
#[verifier::external_body]
pub struct ExInstant(std::time::Instant);

} // verus!

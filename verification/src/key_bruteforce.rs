use vstd::prelude::*;
use crate::mtkey::{Mtkey, key_stream, xor_with_key, lemma_key_stream_len, KEY_LEN};
use crate::random_cs::{after_samples, next_sample, scaled_sample, seeded_state, seed_magnitude, lemma_seeded_state_by_magnitude};

pub use crate::random_cs::Random;

verus! {

/// Number of send-time offsets tried around the recorded send time.
pub const OFFSET_ATTEMPTS: usize = 3000;

/// Number of draws tried from each seeded generator.
pub const GUESS_DEPTH: i32 = 1000;

/// Number of seeds kept when the list is written out.
pub const SAVED_SEEDS: usize = 1000;

/// Offset of attempt `i` from the send time: 0, 0, 1, -1, 2, -2, ...
pub open spec fn attempt_offset(i: int) -> int {
    if i % 2 == 0 {
        i / 2
    } else {
        -((i - 1) / 2)
    }
}

/// The time stamp tried at attempt `i`, added with two's-complement wrap-around.
pub open spec fn attempt_time(sent_time: u64, i: int) -> i64 {
    vstd::wrapping::i64_specs::wrapping_add(sent_time as i64, attempt_offset(i) as i64)
}

/// The `k`-th client seed drawn (from 0) from a generator seeded with `ts`.
pub open spec fn client_seed(ts: i64, k: nat) -> u64 {
    scaled_sample(next_sample(after_samples(seeded_state(ts as i32), k))) as u64
}

/// The key stream starts with the bytes that turn `bytes` into a frame's head magic.
pub open spec fn prefix_ok(key: Seq<u8>, bytes: Seq<u8>) -> bool {
    &&& key[0] == bytes[0] ^ 0x45u8
    &&& key[1] == bytes[1] ^ 0x67u8
}

/// The key stream, at the positions of the last two bytes of `bytes`, holds the
/// bytes that turn them into a frame's tail magic.
pub open spec fn suffix_ok(key: Seq<u8>, bytes: Seq<u8>) -> bool {
    let n = bytes.len() as int;
    &&& key[(n - 2) % (KEY_LEN as int)] == bytes[n - 2] ^ 0x89u8
    &&& key[(n - 1) % (KEY_LEN as int)] == bytes[n - 1] ^ 0xABu8
}

/// The first of the draws `k..depth` of a generator seeded with `ts` whose
/// session seed gives a key that frames `bytes` at both ends.
pub open spec fn guess_from(bytes: Seq<u8>, ts: i64, server_seed: u64, k: nat, depth: int) -> Option<u64>
    decreases depth - k,
{
    if k >= depth {
        None
    } else {
        let seed = client_seed(ts, k) ^ server_seed;
        if prefix_ok(key_stream(seed), bytes) && suffix_ok(key_stream(seed), bytes) {
            Some(seed)
        } else {
            guess_from(bytes, ts, server_seed, k + 1, depth)
        }
    }
}

/// Draws `k..d1` are among draws `k..d2`, so the larger range keeps what the
/// smaller one found.
proof fn lemma_guess_depth_monotone_from(bytes: Seq<u8>, ts: i64, server_seed: u64, k: nat, d1: int, d2: int)
    requires
        d1 <= d2,
    ensures
        guess_from(bytes, ts, server_seed, k, d1) is Some ==> guess_from(bytes, ts, server_seed, k, d2)
            == guess_from(bytes, ts, server_seed, k, d1),
        guess_from(bytes, ts, server_seed, k, d2) is None ==> guess_from(bytes, ts, server_seed, k, d1) is None,
    decreases d1 - k,
{
    if k < d1 {
        lemma_guess_depth_monotone_from(bytes, ts, server_seed, k + 1, d1, d2);
    }
}

/// A guess with a larger depth returns the seed that a guess with a smaller
/// depth found, and where the larger depth finds nothing, so does the smaller.
pub proof fn lemma_guess_depth_monotone(bytes: Seq<u8>, ts: i64, server_seed: u64, d1: i32, d2: i32, x: u64)
    requires
        bytes.len() >= 2,
        d1 <= d2,
    ensures
        guess_from(bytes, ts, server_seed, 0, d1 as int) == Some(x) ==> guess_from(bytes, ts, server_seed, 0, d2 as int)
            == Some(x),
        guess_from(bytes, ts, server_seed, 0, d2 as int) is None ==> guess_from(bytes, ts, server_seed, 0, d1 as int)
            is None,
{
    lemma_guess_depth_monotone_from(bytes, ts, server_seed, 0, d1 as int, d2 as int);
}

/// The session seed from draw `k` (counted from 0) of one generator seeded
/// with the low 32 bits of `ts`: the draw scaled to 64 bits, xored with the
/// server seed.
#[verifier::opaque]
pub open spec fn drawn_session_seed(ts: i64, server_seed: u64, k: nat) -> u64 {
    (scaled_sample(next_sample(after_samples(seeded_state(ts as i32), k))) as u64) ^ server_seed
}

/// The time stamp `j` milliseconds after `sent_time`, or, with `before`, `j`
/// milliseconds before it, added with two's-complement wrap-around.
pub open spec fn stamp_around(sent_time: u64, j: nat, before: bool) -> i64 {
    vstd::wrapping::i64_specs::wrapping_add(sent_time as i64, (if before { -(j as int) } else { j as int }) as i64)
}

/// Decrypting `bytes` with `key` gives the head magic in the first two bytes
/// and the tail magic in the last two (the key repeats over longer input).
#[verifier::opaque]
pub open spec fn decrypts_to_frame_ends(key: Seq<u8>, bytes: Seq<u8>) -> bool {
    let n = bytes.len() as int;
    &&& key[0] ^ bytes[0] == 0x45u8
    &&& key[1] ^ bytes[1] == 0x67u8
    &&& key[(n - 2) % key.len() as int] ^ bytes[n - 2] == 0x89u8
    &&& key[(n - 1) % key.len() as int] ^ bytes[n - 1] == 0xABu8
}

pub(crate) proof fn lemma_xor_solves(k: u8, b: u8, m: u8)
    ensures
        (k == b ^ m) == (k ^ b == m),
{
    assert((k == b ^ m) == (k ^ b == m)) by (bit_vector);
}

proof fn lemma_framing_draw(bytes: Seq<u8>, ts: i64, server_seed: u64, k: nat)
    requires
        bytes.len() >= 2,
    ensures
        drawn_session_seed(ts, server_seed, k) == client_seed(ts, k) ^ server_seed,
        decrypts_to_frame_ends(key_stream(drawn_session_seed(ts, server_seed, k)), bytes) == (prefix_ok(
            key_stream(drawn_session_seed(ts, server_seed, k)),
            bytes,
        ) && suffix_ok(key_stream(drawn_session_seed(ts, server_seed, k)), bytes)),
{
    reveal(drawn_session_seed);
    reveal(decrypts_to_frame_ends);
    let key = key_stream(drawn_session_seed(ts, server_seed, k));
    lemma_key_stream_len(drawn_session_seed(ts, server_seed, k));
    let n = bytes.len() as int;
    lemma_xor_solves(key[0], bytes[0], 0x45u8);
    lemma_xor_solves(key[1], bytes[1], 0x67u8);
    lemma_xor_solves(key[(n - 2) % (KEY_LEN as int)], bytes[n - 2], 0x89u8);
    lemma_xor_solves(key[(n - 1) % (KEY_LEN as int)], bytes[n - 1], 0xABu8);
}

proof fn lemma_guess_from_first_framing(bytes: Seq<u8>, ts: i64, server_seed: u64, k0: nat, depth: int)
    requires
        bytes.len() >= 2,
    ensures
        (forall|k: nat|
            k0 <= k < depth ==> !decrypts_to_frame_ends(key_stream(#[trigger] drawn_session_seed(ts, server_seed, k)), bytes))
            ==> guess_from(bytes, ts, server_seed, k0, depth) is None,
        forall|k: nat|
            k0 <= k < depth && decrypts_to_frame_ends(key_stream(#[trigger] drawn_session_seed(ts, server_seed, k)), bytes)
                && (forall|j: nat|
                k0 <= j < k ==> !decrypts_to_frame_ends(key_stream(#[trigger] drawn_session_seed(ts, server_seed, j)), bytes))
                ==> guess_from(bytes, ts, server_seed, k0, depth) == Some(drawn_session_seed(ts, server_seed, k)),
    decreases depth - k0,
{
    if k0 < depth {
        lemma_guess_from_first_framing(bytes, ts, server_seed, k0 + 1, depth);
        lemma_framing_draw(bytes, ts, server_seed, k0);
        let here = drawn_session_seed(ts, server_seed, k0);
        assert(guess_from(bytes, ts, server_seed, k0, depth) == if decrypts_to_frame_ends(key_stream(here), bytes) {
            Some(here)
        } else {
            guess_from(bytes, ts, server_seed, k0 + 1, depth)
        });
    }
}

/// A guess returns the session seed of the first draw, among the first
/// `depth` draws of one generator seeded with the low 32 bits of `ts`, whose
/// key decrypts the ends of `bytes` to the head and tail magic; where none
/// does, the guess is `None`.
pub proof fn lemma_guess_is_first_framing_draw(bytes: Seq<u8>, ts: i64, server_seed: u64, depth: i32)
    requires
        bytes.len() >= 2,
    ensures
        (forall|k: nat|
            k < depth ==> !decrypts_to_frame_ends(key_stream(#[trigger] drawn_session_seed(ts, server_seed, k)), bytes))
            ==> guess_from(bytes, ts, server_seed, 0, depth as int) is None,
        forall|k: nat|
            k < depth && decrypts_to_frame_ends(key_stream(#[trigger] drawn_session_seed(ts, server_seed, k)), bytes)
                && (forall|j: nat|
                j < k ==> !decrypts_to_frame_ends(key_stream(#[trigger] drawn_session_seed(ts, server_seed, j)), bytes))
                ==> guess_from(bytes, ts, server_seed, 0, depth as int) == Some(drawn_session_seed(ts, server_seed, k)),
{
    lemma_guess_from_first_framing(bytes, ts, server_seed, 0, depth as int);
}

/// Two time stamps whose generator seeds have the same magnitude (their low 32
/// bits as a signed value, sign ignored) give the same guess.
pub proof fn lemma_guess_depends_on_seed_magnitude(
    bytes: Seq<u8>,
    ts1: i64,
    ts2: i64,
    server_seed: u64,
    k: nat,
    depth: int,
)
    requires
        seed_magnitude(ts1 as i32) == seed_magnitude(ts2 as i32),
    ensures
        guess_from(bytes, ts1, server_seed, k, depth) == guess_from(bytes, ts2, server_seed, k, depth),
    decreases depth - k,
{
    lemma_seeded_state_by_magnitude(ts1 as i32, ts2 as i32);
    if k < depth {
        lemma_guess_depends_on_seed_magnitude(bytes, ts1, ts2, server_seed, k + 1, depth);
    }
}

/// Only the low 32 bits of the time stamp matter to a guess, and of them only
/// the magnitude: shifting the time stamp by 2^32 gives the same guess, and so
/// does negating its low 32 bits (where that value is not `i32::MIN`).
pub proof fn lemma_guess_ignores_high_bits_and_sign(bytes: Seq<u8>, ts: i64, server_seed: u64, depth: i32)
    requires
        bytes.len() >= 2,
        ts <= i64::MAX - 0x1_0000_0000i64,
    ensures
        guess_from(bytes, ts, server_seed, 0, depth as int) == guess_from(
            bytes,
            (ts + 0x1_0000_0000i64) as i64,
            server_seed,
            0,
            depth as int,
        ),
        ts as i32 != i32::MIN ==> guess_from(bytes, ts, server_seed, 0, depth as int) == guess_from(
            bytes,
            (-((ts as i32) as i64)) as i64,
            server_seed,
            0,
            depth as int,
        ),
{
    let shifted: i64 = (ts + 0x1_0000_0000i64) as i64;
    lemma_low_bits_of_shift(ts, shifted);
    lemma_guess_depends_on_seed_magnitude(bytes, ts, shifted, server_seed, 0, depth as int);
    if ts as i32 != i32::MIN {
        let negated: i64 = (-((ts as i32) as i64)) as i64;
        lemma_low_bits_of_negation(ts as i32, negated);
        lemma_guess_depends_on_seed_magnitude(bytes, ts, negated, server_seed, 0, depth as int);
    }
}

proof fn lemma_low_bits_of_shift(ts: i64, shifted: i64)
    requires
        ts <= i64::MAX - 0x1_0000_0000i64,
        shifted == (ts + 0x1_0000_0000i64) as i64,
    ensures
        seed_magnitude(shifted as i32) == seed_magnitude(ts as i32),
{
    assert((shifted as i32) == (ts as i32)) by (bit_vector)
        requires
            ts <= 0x7fff_ffff_ffff_ffffi64 - 0x1_0000_0000i64,
            shifted == (ts + 0x1_0000_0000i64) as i64,
    ;
}

proof fn lemma_low_bits_of_negation(low: i32, negated: i64)
    requires
        low != i32::MIN,
        negated == (-(low as i64)) as i64,
    ensures
        seed_magnitude(negated as i32) == seed_magnitude(low),
{
    assert((negated as i32) as int == -(low as int)) by (bit_vector)
        requires
            low >= -0x7fff_ffffi32,
            negated == (-(low as i64)) as i64,
    ;
}

/// The first of the remembered time stamps, from index `j` on, for which a guess succeeds.
pub open spec fn remembered_from(prev: Seq<i64>, bytes: Seq<u8>, server_seed: u64, j: nat) -> Option<u64>
    decreases prev.len() - j,
{
    if j >= prev.len() {
        None
    } else {
        match guess_from(bytes, prev[j as int], server_seed, 0, GUESS_DEPTH as int) {
            Some(seed) => Some(seed),
            None => remembered_from(prev, bytes, server_seed, j + 1),
        }
    }
}

/// The first of the offset attempts `i..OFFSET_ATTEMPTS` for which a guess
/// succeeds: its time stamp and the seed found.
pub open spec fn offsets_from(sent_time: u64, bytes: Seq<u8>, server_seed: u64, i: nat) -> Option<(i64, u64)>
    decreases OFFSET_ATTEMPTS - i,
{
    if i >= OFFSET_ATTEMPTS {
        None
    } else {
        let ts = attempt_time(sent_time, i as int);
        match guess_from(bytes, ts, server_seed, 0, GUESS_DEPTH as int) {
            Some(seed) => Some((ts, seed)),
            None => offsets_from(sent_time, bytes, server_seed, i + 1),
        }
    }
}

/// What a key search returns, and the remembered time stamps after it: the
/// remembered ones are tried first; a time stamp found among the offsets is
/// remembered.
pub open spec fn bruteforce_outcome(prev: Seq<i64>, sent_time: u64, server_seed: u64, bytes: Seq<u8>) -> (
    Option<u64>,
    Seq<i64>,
) {
    match remembered_from(prev, bytes, server_seed, 0) {
        Some(seed) => (Some(seed), prev),
        None => match offsets_from(sent_time, bytes, server_seed, 0) {
            Some((ts, seed)) => (Some(seed), prev.push(ts)),
            None => (None, prev),
        },
    }
}

proof fn lemma_remembered_first(prev: Seq<i64>, bytes: Seq<u8>, server_seed: u64, j0: nat)
    ensures
        (forall|j: int| j0 <= j < prev.len() ==> (#[trigger] guess_from(bytes, prev[j], server_seed, 0, 1000)) is None)
            ==> remembered_from(prev, bytes, server_seed, j0) is None,
        forall|j: int|
            j0 <= j < prev.len() && (#[trigger] guess_from(bytes, prev[j], server_seed, 0, 1000)) is Some && (forall|i: int|
                j0 <= i < j ==> (#[trigger] guess_from(bytes, prev[i], server_seed, 0, 1000)) is None)
                ==> remembered_from(prev, bytes, server_seed, j0) == guess_from(bytes, prev[j], server_seed, 0, 1000),
    decreases prev.len() - j0,
{
    if j0 < prev.len() {
        lemma_remembered_first(prev, bytes, server_seed, j0 + 1);
        let g = guess_from(bytes, prev[j0 as int], server_seed, 0, 1000);
        assert(remembered_from(prev, bytes, server_seed, j0) == match g {
            Some(seed) => Some(seed),
            None => remembered_from(prev, bytes, server_seed, j0 + 1),
        });
    }
}

proof fn lemma_offsets_step(sent_time: u64, bytes: Seq<u8>, server_seed: u64, m: nat)
    requires
        m < 1500,
    ensures
        ({
            let ta = stamp_around(sent_time, m, false);
            let tb = stamp_around(sent_time, m, true);
            offsets_from(sent_time, bytes, server_seed, 2 * m) == match guess_from(bytes, ta, server_seed, 0, 1000) {
                Some(seed) => Some((ta, seed)),
                None => match guess_from(bytes, tb, server_seed, 0, 1000) {
                    Some(seed) => Some((tb, seed)),
                    None => offsets_from(sent_time, bytes, server_seed, 2 * (m + 1)),
                },
            }
        }),
{
    let i0: nat = 2 * m;
    let i1: nat = 2 * m + 1;
    let i2: nat = 2 * (m + 1);
    assert(i1 == i0 + 1 && i2 == i1 + 1);
    assert((2 * m) % 2 == 0 && (2 * m) / 2 == m) by (nonlinear_arith);
    assert((2 * m + 1) % 2 == 1 && (2 * m + 1 - 1) / 2 == m) by (nonlinear_arith);
    assert(attempt_time(sent_time, i0 as int) == stamp_around(sent_time, m, false));
    assert(attempt_time(sent_time, i1 as int) == stamp_around(sent_time, m, true));
    assert(offsets_from(sent_time, bytes, server_seed, i0) == match guess_from(
        bytes,
        attempt_time(sent_time, i0 as int),
        server_seed,
        0,
        GUESS_DEPTH as int,
    ) {
        Some(seed) => Some((attempt_time(sent_time, i0 as int), seed)),
        None => offsets_from(sent_time, bytes, server_seed, i1),
    });
    assert(offsets_from(sent_time, bytes, server_seed, i1) == match guess_from(
        bytes,
        attempt_time(sent_time, i1 as int),
        server_seed,
        0,
        GUESS_DEPTH as int,
    ) {
        Some(seed) => Some((attempt_time(sent_time, i1 as int), seed)),
        None => offsets_from(sent_time, bytes, server_seed, i2),
    });
}

proof fn lemma_offsets_pairs(sent_time: u64, bytes: Seq<u8>, server_seed: u64, m0: nat)
    requires
        m0 <= 1500,
    ensures
        (forall|m: nat, before: bool|
            m0 <= m < 1500 ==> (guess_from(bytes, #[trigger] stamp_around(sent_time, m, before), server_seed, 0, 1000)) is None)
            ==> offsets_from(sent_time, bytes, server_seed, 2 * m0) is None,
        forall|m: nat, before: bool|
            m0 <= m < 1500 && (guess_from(bytes, #[trigger] stamp_around(sent_time, m, before), server_seed, 0, 1000)) is Some
                && (before ==> guess_from(bytes, stamp_around(sent_time, m, false), server_seed, 0, 1000) is None) && (
            forall|i: nat, b: bool|
                m0 <= i < m ==> (guess_from(bytes, #[trigger] stamp_around(sent_time, i, b), server_seed, 0, 1000)) is None)
                ==> offsets_from(sent_time, bytes, server_seed, 2 * m0) == Some(
                (
                    stamp_around(sent_time, m, before),
                    guess_from(bytes, stamp_around(sent_time, m, before), server_seed, 0, 1000)->0,
                ),
            ),
    decreases 1500 - m0,
{
    if m0 < 1500 {
        lemma_offsets_pairs(sent_time, bytes, server_seed, m0 + 1);
        lemma_offsets_step(sent_time, bytes, server_seed, m0);
        let ga = guess_from(bytes, stamp_around(sent_time, m0, false), server_seed, 0, 1000);
        let gb = guess_from(bytes, stamp_around(sent_time, m0, true), server_seed, 0, 1000);
        let here = offsets_from(sent_time, bytes, server_seed, 2 * m0);
        assert forall|m: nat, before: bool|
            m0 <= m < 1500 && (guess_from(bytes, #[trigger] stamp_around(sent_time, m, before), server_seed, 0, 1000)) is Some
                && (before ==> guess_from(bytes, stamp_around(sent_time, m, false), server_seed, 0, 1000) is None) && (
            forall|i: nat, b: bool|
                m0 <= i < m ==> (guess_from(bytes, #[trigger] stamp_around(sent_time, i, b), server_seed, 0, 1000)) is None)
                implies here == Some(
                (
                    stamp_around(sent_time, m, before),
                    guess_from(bytes, stamp_around(sent_time, m, before), server_seed, 0, 1000)->0,
                ),
            ) by {
            if m > m0 {
                assert(guess_from(bytes, stamp_around(sent_time, m0, false), server_seed, 0, 1000) is None);
                assert(guess_from(bytes, stamp_around(sent_time, m0, true), server_seed, 0, 1000) is None);
            }
        }
        if forall|m: nat, before: bool|
            m0 <= m < 1500 ==> (guess_from(bytes, #[trigger] stamp_around(sent_time, m, before), server_seed, 0, 1000)) is None {
            assert(ga is None && gb is None);
        }
    }
}

/// A key search first tries the remembered time stamps, oldest first, with
/// 1000 draws each, and returns the first guess that succeeds, remembering
/// nothing new. Where none succeeds, it tries, for each `m` below 1500, the
/// time stamp `m` milliseconds after the send time and then the one `m`
/// milliseconds before it; the first stamp whose guess succeeds gives the
/// result and is remembered after the others. Where none does, the result is
/// `None` and the remembered stamps stay as they were.
pub proof fn lemma_key_search_order(prev: Seq<i64>, sent_time: u64, server_seed: u64, bytes: Seq<u8>)
    ensures
        forall|j: int|
            0 <= j < prev.len() && (#[trigger] guess_from(bytes, prev[j], server_seed, 0, 1000)) is Some && (forall|i: int|
                0 <= i < j ==> (#[trigger] guess_from(bytes, prev[i], server_seed, 0, 1000)) is None)
                ==> bruteforce_outcome(prev, sent_time, server_seed, bytes) == (
                guess_from(bytes, prev[j], server_seed, 0, 1000),
                prev,
            ),
        (forall|j: int| 0 <= j < prev.len() ==> (#[trigger] guess_from(bytes, prev[j], server_seed, 0, 1000)) is None)
            ==> {
            &&& forall|m: nat, before: bool|
                m < 1500 && (guess_from(bytes, #[trigger] stamp_around(sent_time, m, before), server_seed, 0, 1000)) is Some
                    && (before ==> guess_from(bytes, stamp_around(sent_time, m, false), server_seed, 0, 1000) is None)
                    && (forall|i: nat, b: bool|
                    i < m ==> (guess_from(bytes, #[trigger] stamp_around(sent_time, i, b), server_seed, 0, 1000)) is None)
                    ==> bruteforce_outcome(prev, sent_time, server_seed, bytes) == (
                    guess_from(bytes, stamp_around(sent_time, m, before), server_seed, 0, 1000),
                    prev.push(stamp_around(sent_time, m, before)),
                )
            &&& (forall|m: nat, before: bool|
                m < 1500 ==> (guess_from(bytes, #[trigger] stamp_around(sent_time, m, before), server_seed, 0, 1000)) is None)
                ==> bruteforce_outcome(prev, sent_time, server_seed, bytes) == (None::<u64>, prev)
        },
{
    lemma_remembered_first(prev, bytes, server_seed, 0);
    lemma_offsets_pairs(sent_time, bytes, server_seed, 0);
}

/// A seed that a guess returns gives a key that frames the bytes at both ends.
pub proof fn lemma_guess_frames(bytes: Seq<u8>, ts: i64, server_seed: u64, k: nat, depth: int)
    requires
        guess_from(bytes, ts, server_seed, k, depth) is Some,
    ensures
        prefix_ok(key_stream(guess_from(bytes, ts, server_seed, k, depth)->0), bytes),
        suffix_ok(key_stream(guess_from(bytes, ts, server_seed, k, depth)->0), bytes),
    decreases depth - k,
{
    let seed = client_seed(ts, k) ^ server_seed;
    if !(prefix_ok(key_stream(seed), bytes) && suffix_ok(key_stream(seed), bytes)) {
        lemma_guess_frames(bytes, ts, server_seed, k + 1, depth);
    }
}

proof fn lemma_remembered_frames(prev: Seq<i64>, bytes: Seq<u8>, server_seed: u64, j: nat)
    requires
        remembered_from(prev, bytes, server_seed, j) is Some,
    ensures
        prefix_ok(key_stream(remembered_from(prev, bytes, server_seed, j)->0), bytes),
        suffix_ok(key_stream(remembered_from(prev, bytes, server_seed, j)->0), bytes),
    decreases prev.len() - j,
{
    if j < prev.len() {
        match guess_from(bytes, prev[j as int], server_seed, 0, GUESS_DEPTH as int) {
            Some(_) => lemma_guess_frames(bytes, prev[j as int], server_seed, 0, GUESS_DEPTH as int),
            None => lemma_remembered_frames(prev, bytes, server_seed, j + 1),
        }
    }
}

proof fn lemma_offsets_frames(sent_time: u64, bytes: Seq<u8>, server_seed: u64, i: nat)
    requires
        offsets_from(sent_time, bytes, server_seed, i) is Some,
    ensures
        match offsets_from(sent_time, bytes, server_seed, i) {
            Some((ts, seed)) => guess_from(bytes, ts, server_seed, 0, GUESS_DEPTH as int) == Some(seed),
            None => false,
        },
    decreases OFFSET_ATTEMPTS - i,
{
    if i < OFFSET_ATTEMPTS {
        let ts = attempt_time(sent_time, i as int);
        if guess_from(bytes, ts, server_seed, 0, GUESS_DEPTH as int) is None {
            lemma_offsets_frames(sent_time, bytes, server_seed, i + 1);
        }
    }
}

/// A seed that the key search returns gives a key that decrypts the bytes
/// into a whole frame: head magic first, tail magic last.
pub proof fn lemma_found_key_frames(prev: Seq<i64>, sent_time: u64, server_seed: u64, bytes: Seq<u8>)
    requires
        bytes.len() >= 2,
        bruteforce_outcome(prev, sent_time, server_seed, bytes).0 is Some,
    ensures
        ({
            let key = key_stream(bruteforce_outcome(prev, sent_time, server_seed, bytes).0->0);
            let plain = xor_with_key(bytes, key);
            let n = bytes.len() as int;
            &&& plain[0] == 0x45u8
            &&& plain[1] == 0x67u8
            &&& plain[n - 2] == 0x89u8
            &&& plain[n - 1] == 0xABu8
        }),
{
    let seed = bruteforce_outcome(prev, sent_time, server_seed, bytes).0->0;
    match remembered_from(prev, bytes, server_seed, 0) {
        Some(_) => lemma_remembered_frames(prev, bytes, server_seed, 0),
        None => {
            lemma_offsets_frames(sent_time, bytes, server_seed, 0);
            let (ts, _) = offsets_from(sent_time, bytes, server_seed, 0)->0;
            lemma_guess_frames(bytes, ts, server_seed, 0, GUESS_DEPTH as int);
        },
    }
    let key = key_stream(seed);
    lemma_key_stream_len(seed);
    let n = bytes.len() as int;
    assert(0int % (key.len() as int) == 0);
    assert(1int % (key.len() as int) == 1);
    let (b0, b1, b2, b3) = (bytes[0], bytes[1], bytes[n - 2], bytes[n - 1]);
    assert((b0 ^ (b0 ^ 0x45u8)) == 0x45u8) by (bit_vector);
    assert((b1 ^ (b1 ^ 0x67u8)) == 0x67u8) by (bit_vector);
    assert((b2 ^ (b2 ^ 0x89u8)) == 0x89u8) by (bit_vector);
    assert((b3 ^ (b3 ^ 0xABu8)) == 0xABu8) by (bit_vector);
}

proof fn lemma_remembered_push(prev: Seq<i64>, x: i64, bytes: Seq<u8>, server_seed: u64, j: nat)
    requires
        j <= prev.len(),
    ensures
        remembered_from(prev.push(x), bytes, server_seed, j) == match remembered_from(prev, bytes, server_seed, j) {
            Some(seed) => Some(seed),
            None => guess_from(bytes, x, server_seed, 0, GUESS_DEPTH as int),
        },
    decreases prev.len() - j,
{
    let p2 = prev.push(x);
    if j < prev.len() {
        assert(p2[j as int] == prev[j as int]);
        lemma_remembered_push(prev, x, bytes, server_seed, j + 1);
    } else {
        assert(p2[j as int] == x);
        assert(remembered_from(p2, bytes, server_seed, j + 1) is None);
    }
}

/// Once a search has found a key from the time offsets, searching the same
/// bytes again, whatever the send time, finds the same seed among the
/// remembered time stamps and remembers nothing more.
pub proof fn lemma_found_stamp_remembered(
    prev: Seq<i64>,
    sent_time: u64,
    server_seed: u64,
    bytes: Seq<u8>,
    later_sent_time: u64,
)
    requires
        bruteforce_outcome(prev, sent_time, server_seed, bytes).0 is Some,
    ensures
        ({
            let (found, now) = bruteforce_outcome(prev, sent_time, server_seed, bytes);
            bruteforce_outcome(now, later_sent_time, server_seed, bytes) == (found, now)
        }),
{
    match remembered_from(prev, bytes, server_seed, 0) {
        Some(_) => {},
        None => {
            lemma_offsets_frames(sent_time, bytes, server_seed, 0);
            let (ts, _) = offsets_from(sent_time, bytes, server_seed, 0)->0;
            lemma_remembered_push(prev, ts, bytes, server_seed, 0);
        },
    }
}

/// The decimal digits of `n`.
pub open spec fn digits(n: nat) -> Seq<u8>
    decreases n,
{
    if n < 10 {
        seq![(48 + n) as u8]
    } else {
        digits(n / 10).push((48 + n % 10) as u8)
    }
}

/// The number a run of ASCII decimal digits stands for, most significant first.
pub open spec fn ascii_decimal_value(s: Seq<u8>) -> int
    decreases s.len(),
{
    if s.len() == 0 {
        0
    } else {
        ascii_decimal_value(s.drop_last()) * 10 + (s.last() as int - 48)
    }
}

/// The digits of `n` are ASCII decimal digits, at least one, with no leading
/// zero, and read back as `n`.
pub proof fn lemma_digits_read_back(n: nat)
    ensures
        digits(n).len() >= 1,
        (digits(n).len() == 1) == (n < 10),
        forall|i: int| 0 <= i < digits(n).len() ==> 48 <= #[trigger] digits(n)[i] <= 57,
        digits(n).len() > 1 ==> digits(n)[0] != 48u8,
        ascii_decimal_value(digits(n)) == n,
    decreases n,
{
    if n >= 10 {
        lemma_digits_read_back(n / 10);
        let s = digits(n);
        assert(s.drop_last() == digits(n / 10));
        assert forall|i: int| 0 <= i < s.len() implies 48 <= #[trigger] s[i] <= 57 by {
            if i < s.len() - 1 {
                assert(s[i] == digits(n / 10)[i]);
            }
        }
        assert(s[0] == digits(n / 10)[0]);
        if n / 10 < 10 {
            assert(n / 10 >= 1);
            assert(digits(n / 10)[0] == (48 + n / 10) as u8);
        }
    } else {
        assert(ascii_decimal_value(digits(n)) == ascii_decimal_value(digits(n).drop_last()) * 10 + (digits(n).last() as int - 48));
        assert(digits(n).drop_last().len() == 0);
    }
}

/// `v` written in decimal, with a leading `-` when negative.
pub open spec fn decimal(v: int) -> Seq<u8> {
    if v < 0 {
        seq![45u8] + digits((-v) as nat)
    } else {
        digits(v as nat)
    }
}

/// Each seed in decimal on a line of its own.
pub open spec fn seed_lines(seeds: Seq<i64>) -> Seq<u8>
    decreases seeds.len(),
{
    if seeds.len() == 0 {
        Seq::empty()
    } else {
        seed_lines(seeds.drop_last()) + decimal(seeds.last() as int).push(10u8)
    }
}

/// The seeds that are written out: the last `SAVED_SEEDS` of them.
pub open spec fn kept_seeds(seeds: Seq<i64>) -> Seq<i64> {
    if seeds.len() > SAVED_SEEDS {
        seeds.subrange(seeds.len() - SAVED_SEEDS, seeds.len() as int)
    } else {
        seeds
    }
}

/// The seeds written out are the last 1000 remembered ones (all of them when
/// there are fewer), oldest first.
pub proof fn lemma_kept_seeds_are_the_newest(seeds: Seq<i64>)
    ensures
        kept_seeds(seeds).len() == if seeds.len() > 1000 { 1000 } else { seeds.len() },
        forall|i: int|
            0 <= i < kept_seeds(seeds).len() ==> #[trigger] kept_seeds(seeds)[i] == seeds[seeds.len()
                - kept_seeds(seeds).len() + i],
{
}

/// The text of a list of seeds is the text of its first part followed by
/// that of the rest, and a single seed is written as its decimal digits
/// (with a leading `-` when negative) and a newline.
pub proof fn lemma_seed_lines_concat(a: Seq<i64>, b: Seq<i64>)
    ensures
        seed_lines(a + b) == seed_lines(a) + seed_lines(b),
        b.len() == 1 ==> seed_lines(b) == (if b[0] < 0 {
            seq![45u8] + digits((-b[0]) as nat)
        } else {
            digits(b[0] as nat)
        }).push(10u8),
    decreases b.len(),
{
    if b.len() == 0 {
        assert(a + b =~= a);
    } else {
        lemma_seed_lines_concat(a, b.drop_last());
        assert((a + b).drop_last() =~= a + b.drop_last());
        assert(seed_lines(b.drop_last()) + decimal(b.last() as int).push(10u8) == seed_lines(b));
        if b.len() == 1 {
            assert(b.drop_last() =~= Seq::<i64>::empty());
        }
    }
}

/// Finds session keys from the send time of the token response and the
/// server's seed, remembering the generator seeds that worked.
pub struct KeyBruteforce {
    previous_seeds: Vec<i64>,
}

impl KeyBruteforce {
    /// The generator seeds that produced a key before, oldest first.
    pub closed spec fn remembered(&self) -> Seq<i64> {
        self.previous_seeds@
    }

    /// A search that remembers no seed yet.
    pub fn new() -> (kb: KeyBruteforce)
        ensures
            kb.remembered() == Seq::<i64>::empty(),
    {
        KeyBruteforce { previous_seeds: Vec::new() }
    }

    /// The remembered seeds, oldest first.
    pub fn previous_seeds(&self) -> (r: &Vec<i64>)
        ensures
            r@ == self.remembered(),
    {
        &self.previous_seeds
    }

    /// Draws up to `depth` client seeds from a generator seeded with `ts` and
    /// returns the first session seed whose key frames `test_buf` at both ends.
    fn guess(&self, test_buf: &[u8], ts: i64, server_seed: u64, depth: i32) -> (r: Option<u64>)
        requires
            test_buf@.len() >= 2,
        ensures
            r == guess_from(test_buf@, ts, server_seed, 0, depth as int),
    {
        let n = test_buf.len();
        let key_prefix = [test_buf[0] ^ 0x45u8, test_buf[1] ^ 0x67u8];
        let key_suffix = [test_buf[n - 2] ^ 0x89u8, test_buf[n - 1] ^ 0xABu8];
        let rand_seed = ts as i32;
        let mut rand = Random::with_seed(rand_seed);
        let mut k: i32 = 0;
        while k < depth
            invariant
                0 <= k,
                depth >= 0 ==> k <= depth,
                n == test_buf@.len(),
                n >= 2,
                key_prefix@ == seq![test_buf@[0] ^ 0x45u8, test_buf@[1] ^ 0x67u8],
                key_suffix@ == seq![test_buf@[n - 2] ^ 0x89u8, test_buf@[n - 1] ^ 0xABu8],
                rand@ == after_samples(seeded_state(ts as i32), k as nat),
                guess_from(test_buf@, ts, server_seed, 0, depth as int) == guess_from(
                    test_buf@,
                    ts,
                    server_seed,
                    k as nat,
                    depth as int,
                ),
            decreases depth - k,
        {
            let client_seed = rand.next_safe_uint64();
            let seed = client_seed ^ server_seed;
            let key = Mtkey::from_seed(seed);
            let len = key.keybuf.len();
            let is_valid_prefix = key.keybuf[0] == key_prefix[0] && key.keybuf[1] == key_prefix[1];
            let is_valid_suffix = key.keybuf[(n - 2) % len] == key_suffix[0] && key.keybuf[(n - 1)
                % len] == key_suffix[1];
            if is_valid_prefix && is_valid_suffix {
                return Some(seed);
            }
            k = k + 1;
        }
        None
    }

    /// Looks for the session seed of `bytes`: first from the remembered
    /// generator seeds, then from time stamps around `sent_time`, remembering
    /// the time stamp that worked.
    pub fn bruteforce(&mut self, sent_time: u64, server_seed: u64, bytes: &[u8]) -> (r: Option<u64>)
        requires
            bytes@.len() >= 2,
        ensures
            (r, final(self).remembered()) == bruteforce_outcome(
                old(self).remembered(),
                sent_time,
                server_seed,
                bytes@,
            ),
    {
        let mut j: usize = 0;
        while j < self.previous_seeds.len()
            invariant
                bytes@.len() >= 2,
                self.previous_seeds@ == old(self).previous_seeds@,
                j <= self.previous_seeds@.len(),
                remembered_from(self.previous_seeds@, bytes@, server_seed, 0) == remembered_from(
                    self.previous_seeds@,
                    bytes@,
                    server_seed,
                    j as nat,
                ),
            decreases self.previous_seeds@.len() - j,
        {
            let oldseed = self.previous_seeds[j];
            if let Some(key) = self.guess(bytes, oldseed, server_seed, GUESS_DEPTH) {
                return Some(key);
            }
            j = j + 1;
        }
        let mut i: usize = 0;
        while i < OFFSET_ATTEMPTS
            invariant
                bytes@.len() >= 2,
                self.previous_seeds@ == old(self).previous_seeds@,
                remembered_from(self.previous_seeds@, bytes@, server_seed, 0) is None,
                i <= OFFSET_ATTEMPTS,
                offsets_from(sent_time, bytes@, server_seed, 0) == offsets_from(
                    sent_time,
                    bytes@,
                    server_seed,
                    i as nat,
                ),
            decreases OFFSET_ATTEMPTS - i,
        {
            let ii = i as i64;
            let offset: i64 = if ii % 2 == 0 {
                ii / 2
            } else {
                -(ii - 1) / 2
            };
            let ts = (sent_time as i64).wrapping_add(offset);
            assert(offset == attempt_offset(i as int));
            if let Some(key) = self.guess(bytes, ts, server_seed, GUESS_DEPTH) {
                self.previous_seeds.push(ts);
                return Some(key);
            }
            i = i + 1;
        }
        None
    }

    /// The text the remembered seeds are saved as: the last `SAVED_SEEDS`
    /// of them, each in decimal on a line of its own.
    pub fn save_text(&self) -> (text: Vec<u8>)
        ensures
            text@ == seed_lines(kept_seeds(self.remembered())),
    {
        let len = self.previous_seeds.len();
        let n = if len > SAVED_SEEDS {
            len - SAVED_SEEDS
        } else {
            0
        };
        let ghost kept = kept_seeds(self.previous_seeds@);
        let mut contents: Vec<u8> = Vec::new();
        let mut i = n;
        while i < len
            invariant
                len == self.previous_seeds@.len(),
                n <= i <= len,
                kept == self.previous_seeds@.subrange(n as int, len as int),
                contents@ == seed_lines(self.previous_seeds@.subrange(n as int, i as int)),
            decreases len - i,
        {
            let seed = self.previous_seeds[i];
            push_decimal(seed, &mut contents);
            contents.push(10u8);
            proof {
                let s = self.previous_seeds@.subrange(n as int, i + 1);
                assert(s.drop_last() =~= self.previous_seeds@.subrange(n as int, i as int));
                assert(s.last() == seed);
            }
            i = i + 1;
        }
        proof {
            assert(kept_seeds(self.previous_seeds@) =~= self.previous_seeds@.subrange(
                n as int,
                len as int,
            ));
        }
        contents
    }
}

/// Appends the decimal digits of `n`.
pub(crate) fn push_digits(n: u64, out: &mut Vec<u8>)
    ensures
        final(out)@ == old(out)@ + digits(n as nat),
    decreases n,
{
    if n >= 10 {
        push_digits(n / 10, out);
    }
    out.push((48 + n % 10) as u8);
    assert(out@ =~= old(out)@ + digits(n as nat));
}

/// Appends `v` in decimal.
fn push_decimal(v: i64, out: &mut Vec<u8>)
    ensures
        final(out)@ == old(out)@ + decimal(v as int),
{
    if v < 0 {
        out.push(45u8);
        let m: u64 = (-(v as i128)) as u64;
        push_digits(m, out);
        assert(final(out)@ =~= old(out)@ + decimal(v as int));
    } else {
        push_digits(v as u64, out);
    }
}

} // verus!

use vstd::prelude::*;

verus! {

/// Number of state words that seeding and twisting act on.
pub const STATE_WORDS: usize = 312;

/// Length of the state array; the words past `STATE_WORDS` are only ever read.
pub const ARRAY_WORDS: usize = 624;

/// Multiplier of the seeding recurrence.
pub const SEED_MULTIPLIER: u64 = 6364136223846793005;

/// Seed used when the generator is asked to reseed itself.
pub const DEFAULT_SEED: u64 = 5489;

pub const UPPER_MASK: u64 = 0xffffffff80000000;

pub const LOWER_MASK: u64 = 0x7fffffff;

pub const MATRIX_A: u64 = 0xb5026f5aa96619e9;

/// Abstract state of the generator: its word array and the read position.
pub ghost struct MtState {
    pub words: Seq<u64>,
    pub index: nat,
    /// The word count, offset and twist constant the generator was built with
    /// (kept as fields, never read by the algorithm).
    pub n: i32,
    pub m: i32,
    pub matrix_a: u64,
}

/// Word `i` of the array after seeding with `seed` (`i < STATE_WORDS`).
pub open spec fn seed_word(seed: u64, i: nat) -> u64
    decreases i,
{
    if i == 0 {
        seed
    } else {
        let prev = seed_word(seed, (i - 1) as nat);
        vstd::wrapping::u64_specs::wrapping_add(
            vstd::wrapping::u64_specs::wrapping_mul(SEED_MULTIPLIER, prev ^ (prev >> 62u64)),
            i as u64,
        )
    }
}

/// The word array after seeding: the first `STATE_WORDS` words are replaced.
pub open spec fn seeded_words(words: Seq<u64>, seed: u64) -> Seq<u64> {
    Seq::new(words.len(), |i: int| if i < STATE_WORDS { seed_word(seed, i as nat) } else { words[i] })
}

pub open spec fn twist_mix(y: u64) -> u64 {
    (y >> 1u64) ^ (if y & 1u64 == 0 { 0u64 } else { MATRIX_A })
}

/// New value of word `k < 311` in a twist; it reads only words of the old array.
pub open spec fn twist_word(words: Seq<u64>, k: int) -> u64 {
    words[k + 156] ^ twist_mix((words[k] & UPPER_MASK) | (words[k + 1] & LOWER_MASK))
}

/// New value of word 311 in a twist; it reads the new words 0 and 155.
pub open spec fn twist_last(words: Seq<u64>) -> u64 {
    twist_word(words, 155) ^ twist_mix((words[311] & UPPER_MASK) | (twist_word(words, 0) & LOWER_MASK))
}

/// The word array after one twist.
pub open spec fn twisted(words: Seq<u64>) -> Seq<u64> {
    Seq::new(
        words.len(),
        |k: int|
            if k < 311 {
                twist_word(words, k)
            } else if k == 311 {
                twist_last(words)
            } else {
                words[k]
            },
    )
}

/// One twist of a 624-word array: each of the words 0 to 310 becomes the
/// word 156 places on xored with the mixed upper bit of itself and lower 31
/// bits of the next word; word 311 is then computed the same way from the new
/// words 155 and 0; words 312 and on are kept.
pub proof fn lemma_twist_words(w: Seq<u64>)
    requires
        w.len() == 624,
    ensures
        twisted(w).len() == 624,
        forall|k: int|
            0 <= k < 311 ==> {
                let y = (w[k] & 0xffff_ffff_8000_0000u64) | (w[k + 1] & 0x7fff_ffffu64);
                #[trigger] twisted(w)[k] == w[k + 156] ^ ((y >> 1u64) ^ (if y & 1u64 == 0 {
                    0u64
                } else {
                    0xb502_6f5a_a966_19e9u64
                }))
            },
        ({
            let y = (w[311] & 0xffff_ffff_8000_0000u64) | (twisted(w)[0] & 0x7fff_ffffu64);
            twisted(w)[311] == twisted(w)[155] ^ ((y >> 1u64) ^ (if y & 1u64 == 0 {
                0u64
            } else {
                0xb502_6f5a_a966_19e9u64
            }))
        }),
        forall|k: int| 312 <= k < 624 ==> #[trigger] twisted(w)[k] == w[k],
{
}

/// Output tempering applied to the word read.
pub open spec fn temper(w: u64) -> u64 {
    let x1 = w ^ ((w >> 29u64) & 0x5555555555555555u64);
    let x2 = x1 ^ ((x1 << 17u64) & 0x71d67fffeda60000u64);
    let x3 = x2 ^ ((x2 << 37u64) & 0xfff7eee000000000u64);
    x3 ^ (x3 >> 43u64)
}

/// The state right before a word is read: twisted first when the words are used up.
pub open spec fn refreshed(s: MtState) -> MtState {
    if s.index >= STATE_WORDS {
        let base = if s.index == 313 { seeded_words(s.words, DEFAULT_SEED) } else { s.words };
        MtState { words: twisted(base), index: 0, ..s }
    } else {
        s
    }
}

/// The value that the next draw returns.
pub open spec fn next_output(s: MtState) -> u64 {
    let t = refreshed(s);
    temper(t.words[t.index as int])
}

/// The state after one draw.
pub open spec fn next_state(s: MtState) -> MtState {
    let t = refreshed(s);
    MtState { index: t.index + 1, ..t }
}

proof fn lemma_wrapping_step(prev: u64, i: nat)
    requires
        1 <= i < 312,
    ensures
        vstd::wrapping::u64_specs::wrapping_add(
            vstd::wrapping::u64_specs::wrapping_mul(SEED_MULTIPLIER, prev ^ (prev >> 62u64)),
            i as u64,
        ) as int == ((prev ^ (prev >> 62u64)) as int * 6364136223846793005 + i) % 0x1_0000_0000_0000_0000,
{
    let v = (prev ^ (prev >> 62u64)) as int;
    let x = v * 6364136223846793005;
    let mm = 0x1_0000_0000_0000_0000int;
    assert(x >= 0) by (nonlinear_arith)
        requires
            v >= 0,
            x == v * 6364136223846793005,
    ;
    assert((SEED_MULTIPLIER as nat * (prev ^ (prev >> 62u64)) as nat) == x) by (nonlinear_arith)
        requires
            SEED_MULTIPLIER == 6364136223846793005u64,
            x == v * 6364136223846793005,
            v == (prev ^ (prev >> 62u64)) as int,
    ;
    vstd::arithmetic::div_mod::lemma_add_mod_noop(x, i as int, mm);
    vstd::arithmetic::div_mod::lemma_small_mod(i, mm as nat);
    vstd::arithmetic::div_mod::lemma_mod_bound(x, mm);
    let r = x % mm;
    if r + i >= mm {
        vstd::arithmetic::div_mod::lemma_mod_sub_multiples_vanish(r + i, mm);
        vstd::arithmetic::div_mod::lemma_small_mod((r + i - mm) as nat, mm as nat);
    } else {
        vstd::arithmetic::div_mod::lemma_small_mod((r + i) as nat, mm as nat);
    }
}

/// Seeding sets word 0 to the seed and each word `i` from 1 to 311 to
/// 6364136223846793005 times the previous word xored with itself shifted right
/// by 62, plus `i`, modulo 2^64; the words from 312 on are kept.
pub proof fn lemma_seeded_words_recurrence(words: Seq<u64>, seed: u64)
    requires
        words.len() == 624,
    ensures
        seeded_words(words, seed).len() == 624,
        seeded_words(words, seed)[0] == seed,
        forall|i: int|
            1 <= i < 312 ==> {
                let prev = seeded_words(words, seed)[i - 1];
                (#[trigger] seeded_words(words, seed)[i]) as int == ((prev ^ (prev >> 62u64)) as int
                    * 6364136223846793005 + i) % 0x1_0000_0000_0000_0000
            },
        forall|i: int| 312 <= i < 624 ==> #[trigger] seeded_words(words, seed)[i] == words[i],
{
    assert forall|i: int|
        1 <= i < 312 implies {
            let prev = seeded_words(words, seed)[i - 1];
            (#[trigger] seeded_words(words, seed)[i]) as int == ((prev ^ (prev >> 62u64)) as int
                * 6364136223846793005 + i) % 0x1_0000_0000_0000_0000
        } by {
        lemma_wrapping_step(seed_word(seed, (i - 1) as nat), i as nat);
    }
}

/// One draw: when the read position has passed word 311 the words are first
/// twisted (after reseeding with 5489 where the position is 313) and reading
/// restarts at word 0; the word read is then tempered by four shift-and-mask
/// steps, and the position moves on by one.
pub proof fn lemma_draw_tempers_word(s: MtState)
    requires
        state_wf(s),
    ensures
        ({
            let words = if s.index >= 312 {
                twisted(if s.index == 313 { seeded_words(s.words, 5489) } else { s.words })
            } else {
                s.words
            };
            let at = if s.index >= 312 { 0 } else { s.index as int };
            let w = words[at];
            let x1 = w ^ ((w >> 29u64) & 0x5555_5555_5555_5555u64);
            let x2 = x1 ^ ((x1 << 17u64) & 0x71d6_7fff_eda6_0000u64);
            let x3 = x2 ^ ((x2 << 37u64) & 0xfff7_eee0_0000_0000u64);
            &&& next_output(s) == x3 ^ (x3 >> 43u64)
            &&& next_state(s).words == words
            &&& next_state(s).index == at + 1
        }),
{
}

/// The state after `n` draws.
pub open spec fn advance(s: MtState, n: nat) -> MtState
    decreases n,
{
    if n == 0 {
        s
    } else {
        next_state(advance(s, (n - 1) as nat))
    }
}

/// The `n`-th value drawn (counting from 0).
pub open spec fn nth_output(s: MtState, n: nat) -> u64 {
    next_output(advance(s, n))
}

/// The state of a freshly built generator.
pub open spec fn initial_state() -> MtState {
    MtState {
        words: Seq::new(ARRAY_WORDS as nat, |i: int| 0u64),
        index: STATE_WORDS as nat,
        n: 0x138,
        m: 0x9C,
        matrix_a: MATRIX_A,
    }
}

/// A generator state that can be stepped: full array, read position in range.
pub open spec fn state_wf(s: MtState) -> bool {
    s.words.len() == ARRAY_WORDS && s.index <= STATE_WORDS
}

/// Any number of draws keeps a generator state well formed.
pub proof fn lemma_advance_wf(s: MtState, n: nat)
    requires
        state_wf(s),
    ensures
        state_wf(advance(s, n)),
    decreases n,
{
    if n > 0 {
        lemma_advance_wf(s, (n - 1) as nat);
    }
}

/// The words past `STATE_WORDS` are all zero, as in every state a generator
/// reaches: nothing ever writes them.
pub open spec fn upper_half_zero(s: MtState) -> bool {
    forall|i: int| STATE_WORDS <= i < ARRAY_WORDS ==> s.words[i] == 0u64
}

/// Drawing leaves the upper words as they are.
pub proof fn lemma_draw_keeps_upper_half(s: MtState)
    requires
        state_wf(s),
        upper_half_zero(s),
    ensures
        upper_half_zero(next_state(s)),
        state_wf(next_state(s)),
{
}

/// Seeding a generator that has drawn or been seeded before gives the same
/// state as seeding a fresh one: seeding forgets the history.
pub proof fn lemma_seed_forgets_history(s: MtState, seed: u64)
    requires
        s.words.len() == ARRAY_WORDS,
        upper_half_zero(s),
    ensures
        seeded_words(s.words, seed) == seeded_words(initial_state().words, seed),
{
    assert(seeded_words(s.words, seed) =~= seeded_words(initial_state().words, seed));
}

/// 64-bit Mersenne-twister style generator.
pub struct MT19937_64 {
    n: i32,
    m: i32,
    matrix_a: u64,
    mt: [u64; 624],
    mti: u32,
}

impl View for MT19937_64 {
    type V = MtState;

    closed spec fn view(&self) -> MtState {
        MtState { words: self.mt@, index: self.mti as nat, n: self.n, m: self.m, matrix_a: self.matrix_a }
    }
}

impl MT19937_64 {
    #[verifier::type_invariant]
    closed spec fn inv(&self) -> bool {
        self.mti <= STATE_WORDS
    }

    /// A generator that has not been seeded: all words zero, reads start with a twist.
    pub fn default() -> (g: MT19937_64)
        ensures
            g@ == initial_state(),
            state_wf(g@),
    {
        let g = MT19937_64 { n: 0x138, m: 0x9C, matrix_a: MATRIX_A, mt: [0u64; 624], mti: 0x138 };
        assert(g.mt@ =~= initial_state().words);
        g
    }

    /// Seeds the first `STATE_WORDS` words from `seed`; the next draw twists.
    pub fn seed(&mut self, seed: u64)
        ensures
            final(self)@ == (MtState { words: seeded_words(old(self)@.words, seed), index: STATE_WORDS as nat, ..old(self)@ }),
            state_wf(final(self)@),
    {
        proof {
            use_type_invariant(&*self);
        }
        let ghost old_words = self.mt@;
        self.mt[0] = seed;
        let mut i: usize = 1;
        while i < STATE_WORDS
            invariant
                1 <= i <= STATE_WORDS,
                self.mt@.len() == ARRAY_WORDS,
                old_words.len() == ARRAY_WORDS,
                forall|j: int| 0 <= j < i ==> self.mt@[j] == seed_word(seed, j as nat),
                forall|j: int| i <= j < ARRAY_WORDS ==> self.mt@[j] == old_words[j],
                self.n == old(self).n,
                self.m == old(self).m,
                self.matrix_a == old(self).matrix_a,
                self.mti == old(self).mti,
                self.mti <= STATE_WORDS,
            decreases STATE_WORDS - i,
        {
            let prev = self.mt[i - 1];
            let value = prev ^ (prev >> 62u64);
            self.mt[i] = SEED_MULTIPLIER.wrapping_mul(value).wrapping_add(i as u64);
            i = i + 1;
        }
        self.mti = 312;
        assert(self.mt@ =~= seeded_words(old_words, seed));
    }

    fn twist(&mut self)
        ensures
            final(self).mti == old(self).mti,
            final(self).mt@ == twisted(old(self).mt@),
            final(self).n == old(self).n,
            final(self).m == old(self).m,
            final(self).matrix_a == old(self).matrix_a,
    {
        proof {
            use_type_invariant(&*self);
        }
        let ghost w = self.mt@;
        let mut k: usize = 0;
        while k < 311
            invariant
                k <= 311,
                self.mt@.len() == ARRAY_WORDS,
                w.len() == ARRAY_WORDS,
                self.mti == old(self).mti,
                self.mti <= STATE_WORDS,
                self.n == old(self).n,
                self.m == old(self).m,
                self.matrix_a == old(self).matrix_a,
                w == old(self).mt@,
                forall|j: int| 0 <= j < k ==> self.mt@[j] == twist_word(w, j),
                forall|j: int| k <= j < ARRAY_WORDS ==> self.mt@[j] == w[j],
            decreases 311 - k,
        {
            let y = (self.mt[k] & UPPER_MASK) | (self.mt[k + 1] & LOWER_MASK);
            let mix = (y >> 1u64) ^ (if y & 1u64 == 0 { 0u64 } else { MATRIX_A });
            self.mt[k] = self.mt[k + 156] ^ mix;
            k = k + 1;
        }
        let yy = (self.mt[311] & UPPER_MASK) | (self.mt[0] & LOWER_MASK);
        let mix = (yy >> 1u64) ^ (if yy & 1u64 == 0 { 0u64 } else { MATRIX_A });
        self.mt[311] = self.mt[155] ^ mix;
        assert(self.mt@ =~= twisted(w));
    }

    /// Draws the next 64-bit value.
    pub fn next_ulong(&mut self) -> (r: u64)
        ensures
            r == next_output(old(self)@),
            final(self)@ == next_state(old(self)@),
            state_wf(final(self)@),
    {
        proof {
            use_type_invariant(&*self);
        }
        if self.mti >= 312 {
            if self.mti == 313 {
                self.seed(DEFAULT_SEED);
            }
            self.twist();
            self.mti = 0;
        }
        let mut x = self.mt[self.mti as usize];
        self.mti = self.mti + 1;
        x = x ^ ((x >> 29u64) & 0x5555555555555555u64);
        x = x ^ ((x << 17u64) & 0x71d67fffeda60000u64);
        x = x ^ ((x << 37u64) & 0xfff7eee000000000u64);
        x = x ^ (x >> 43u64);
        x
    }
}

/// Number of key bytes a session key holds.
pub const KEY_LEN: usize = 4096;

/// Number of generator outputs a key is made of.
pub const KEY_WORDS: usize = 512;

/// The eight bytes of `w`, most significant first.
pub open spec fn be_bytes(w: u64) -> Seq<u8> {
    seq![
        (w >> 56u64) as u8,
        (w >> 48u64) as u8,
        (w >> 40u64) as u8,
        (w >> 32u64) as u8,
        (w >> 24u64) as u8,
        (w >> 16u64) as u8,
        (w >> 8u64) as u8,
        w as u8,
    ]
}

/// The generator a key is read from: seeded with `seed`, reseeded with its
/// first output, and one further output dropped.
pub open spec fn key_generator(seed: u64) -> MtState {
    let s0 = MtState { words: seeded_words(initial_state().words, seed), index: STATE_WORDS as nat, ..initial_state() };
    let s1 = next_state(s0);
    let s2 = MtState { words: seeded_words(s1.words, next_output(s0)), index: STATE_WORDS as nat, ..s1 };
    next_state(s2)
}

/// The bytes of the first `n` outputs of `g`, each most significant byte first.
pub open spec fn output_bytes(g: MtState, n: nat) -> Seq<u8>
    decreases n,
{
    if n == 0 {
        Seq::empty()
    } else {
        output_bytes(g, (n - 1) as nat) + be_bytes(nth_output(g, (n - 1) as nat))
    }
}

/// The key stream derived from `seed`.
pub open spec fn key_stream(seed: u64) -> Seq<u8> {
    output_bytes(key_generator(seed), KEY_WORDS as nat)
}

/// `data` combined byte by byte with `key`, the key repeated as often as needed.
pub open spec fn xor_with_key(data: Seq<u8>, key: Seq<u8>) -> Seq<u8> {
    Seq::new(data.len(), |i: int| data[i] ^ key[i % (key.len() as int)])
}

pub proof fn lemma_output_bytes_len(g: MtState, n: nat)
    ensures
        output_bytes(g, n).len() == 8 * n,
    decreases n,
{
    if n > 0 {
        lemma_output_bytes_len(g, (n - 1) as nat);
    }
}

/// A key stream is `KEY_LEN` bytes long.
pub proof fn lemma_key_stream_len(seed: u64)
    ensures
        key_stream(seed).len() == KEY_LEN,
{
    lemma_output_bytes_len(key_generator(seed), KEY_WORDS as nat);
}

proof fn lemma_output_bytes_at(g: MtState, n: nat, i: int, b: int)
    requires
        0 <= i < n,
        0 <= b < 8,
    ensures
        output_bytes(g, n)[8 * i + b] == be_bytes(nth_output(g, i as nat))[b],
    decreases n,
{
    lemma_output_bytes_len(g, (n - 1) as nat);
    if i < n - 1 {
        lemma_output_bytes_at(g, (n - 1) as nat, i, b);
    }
}

/// A key stream is the first 512 outputs of its generator, each written as
/// eight bytes, most significant first: byte `8 * i + b` is bits `56 - 8 * b`
/// and up of output `i`.
pub proof fn lemma_key_stream_bytes(seed: u64)
    ensures
        key_stream(seed).len() == 4096,
        forall|i: int, b: int|
            0 <= i < 512 && 0 <= b < 8 ==> #[trigger] key_stream(seed)[8 * i + b] as int == (nth_output(
                key_generator(seed),
                i as nat,
            ) as int / vstd::arithmetic::power2::pow2((56 - 8 * b) as nat) as int) % 256,
{
    lemma_key_stream_len(seed);
    assert forall|i: int, b: int|
        0 <= i < 512 && 0 <= b < 8 implies #[trigger] key_stream(seed)[8 * i + b] as int == (nth_output(
            key_generator(seed),
            i as nat,
        ) as int / vstd::arithmetic::power2::pow2((56 - 8 * b) as nat) as int) % 256 by {
        lemma_output_bytes_at(key_generator(seed), 512, i, b);
        let w = nth_output(key_generator(seed), i as nat);
        lemma_be_byte(w, b);
    }
}

proof fn lemma_be_byte(w: u64, b: int)
    requires
        0 <= b < 8,
    ensures
        be_bytes(w)[b] as int == (w as int / vstd::arithmetic::power2::pow2((56 - 8 * b) as nat) as int) % 256,
{
    vstd::arithmetic::power2::lemma2_to64();
    vstd::arithmetic::power2::lemma2_to64_rest();
    let sh = (56 - 8 * b) as u64;
    vstd::bits::lemma_u64_shr_is_div(w, sh);
    let q = w >> sh;
    assert((q as u8) as int == q as int % 256) by (bit_vector);
    assert(be_bytes(w)[b] == q as u8) by {
        if b == 0 { assert(sh == 56); } else if b == 1 { assert(sh == 48); } else if b == 2 { assert(sh == 40); }
        else if b == 3 { assert(sh == 32); } else if b == 4 { assert(sh == 24); } else if b == 5 { assert(sh == 16); }
        else if b == 6 { assert(sh == 8); } else { assert(sh == 0); assert(w >> 0u64 == w) by (bit_vector); }
    }
}

/// Combining with the same key twice gives the data back: the cipher is its
/// own inverse.
pub proof fn lemma_xor_involution(data: Seq<u8>, key: Seq<u8>)
    requires
        key.len() > 0,
    ensures
        xor_with_key(xor_with_key(data, key), key) == data,
{
    let once = xor_with_key(data, key);
    let twice = xor_with_key(once, key);
    assert forall|i: int| 0 <= i < data.len() implies twice[i] == data[i] by {
        let a = data[i];
        let b = key[i % (key.len() as int)];
        assert((a ^ b) ^ b == a) by (bit_vector);
    }
    assert(twice =~= data);
}

/// A session key: a stream of bytes that packets are combined with.
pub struct Mtkey {
    pub keybuf: Vec<u8>,
}

impl Mtkey {
    /// Derives the key stream of `seed`.
    pub fn from_seed(seed: u64) -> (key: Mtkey)
        ensures
            key.keybuf@ == key_stream(seed),
            key.keybuf@.len() == KEY_LEN,
    {
        let mut g = MT19937_64::default();
        g.seed(seed);
        let reseed = g.next_ulong();
        g.seed(reseed);
        g.next_ulong();
        let ghost start = g@;
        assert(start == key_generator(seed));
        let mut keybuf: Vec<u8> = Vec::new();
        let mut k: usize = 0;
        while k < KEY_WORDS
            invariant
                k <= KEY_WORDS,
                    g@ == advance(start, k as nat),
                keybuf@ == output_bytes(start, k as nat),
            decreases KEY_WORDS - k,
        {
            let w = g.next_ulong();
            keybuf.push((w >> 56u64) as u8);
            keybuf.push((w >> 48u64) as u8);
            keybuf.push((w >> 40u64) as u8);
            keybuf.push((w >> 32u64) as u8);
            keybuf.push((w >> 24u64) as u8);
            keybuf.push((w >> 16u64) as u8);
            keybuf.push((w >> 8u64) as u8);
            keybuf.push(w as u8);
            assert(keybuf@ =~= output_bytes(start, (k + 1) as nat));
            k = k + 1;
        }
        proof {
            lemma_key_stream_len(seed);
        }
        Mtkey { keybuf }
    }

    /// Combines `data` in place with the key stream, from its first byte on.
    pub fn xor(&self, data: &mut Vec<u8>)
        requires
            self.keybuf@.len() > 0,
        ensures
            final(data)@ == xor_with_key(old(data)@, self.keybuf@),
    {
        let n = self.keybuf.len();
        let mut i: usize = 0;
        while i < data.len()
            invariant
                n == self.keybuf@.len(),
                n > 0,
                i <= data@.len(),
                data@.len() == old(data)@.len(),
                forall|j: int| 0 <= j < i ==> data@[j] == old(data)@[j] ^ self.keybuf@[j % (n as int)],
                forall|j: int| i <= j < data@.len() ==> data@[j] == old(data)@[j],
            decreases data@.len() - i,
        {
            let b = data[i] ^ self.keybuf[i % n];
            data.set(i, b);
            i = i + 1;
        }
        assert(data@ =~= xor_with_key(old(data)@, self.keybuf@));
    }
}

} // verus!

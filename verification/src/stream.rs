//! Deterministic randomness source.
//!
//! A `Stream` is a pseudo-random generator derived from a string seed
//! alone.  Every draw is a pure function of the current 64-bit state,
//! so the whole sequence of outputs is pinned by the seed and by the
//! order of the calls made against the stream.

use vstd::prelude::*;
use vstd::string::*;

verus! {

/// Additive state increment of the generator (a golden-ratio constant).
pub const STEP_INCREMENT: u64 = 0x9E37_79B9_7F4A_7C15;

/// First multiplier of the output mixing function.
pub const MIX_MUL_A: u64 = 0xBF58_476D_1CE4_E5B9;

/// Second multiplier of the output mixing function.
pub const MIX_MUL_B: u64 = 0x94D0_49BB_1331_11EB;

/// Initial value of the seed hash.
pub const SEED_OFFSET: u64 = 0xCBF2_9CE4_8422_2325;

/// Multiplier of the seed hash.
pub const SEED_PRIME: u64 = 0x0000_0100_0000_01B3;

/// The state that follows `s` after one draw.
pub open spec fn step_state(s: u64) -> u64 {
    vstd::wrapping::u64_specs::wrapping_add(s, STEP_INCREMENT)
}

/// The output mixing function applied to a stepped state.
pub open spec fn mix(z: u64) -> u64 {
    let a = vstd::wrapping::u64_specs::wrapping_mul(z ^ (z >> 30), MIX_MUL_A);
    let b = vstd::wrapping::u64_specs::wrapping_mul(a ^ (a >> 27), MIX_MUL_B);
    b ^ (b >> 31)
}

/// The value that one draw from state `s` yields.
pub open spec fn stream_out(s: u64) -> u64 {
    mix(step_state(s))
}

/// The state after `n` draws from `s`.
pub open spec fn step_n(s: u64, n: nat) -> u64
    decreases n,
{
    if n == 0 {
        s
    } else {
        step_state(step_n(s, (n - 1) as nat))
    }
}

/// One character of the seed folded into the hash state.
pub open spec fn seed_step(h: u64, c: char) -> u64 {
    vstd::wrapping::u64_specs::wrapping_mul(h ^ ((c as u32) as u64), SEED_PRIME)
}

/// The seed hash of the first `n` characters of `s`.
pub open spec fn seed_hash_prefix(s: Seq<char>, n: nat) -> u64
    decreases n,
{
    if n == 0 {
        SEED_OFFSET
    } else {
        seed_step(seed_hash_prefix(s, (n - 1) as nat), s[n - 1])
    }
}

/// The initial stream state derived from a whole seed string.
pub open spec fn seed_state(s: Seq<char>) -> u64 {
    seed_hash_prefix(s, s.len())
}

/// The value in `[lo, hi]` that one draw from state `s` yields.
pub open spec fn range_out(s: u64, lo: u64, hi: u64) -> u64
    recommends
        lo <= hi,
        hi - lo < u64::MAX,
{
    (lo + (stream_out(s) as int) % (hi - lo + 1)) as u64
}

/// The lowercase letter that one draw from state `s` yields.
pub open spec fn letter_of(s: u64) -> char {
    ((0x61 + stream_out(s) % 26) as u8) as char
}

/// `n` letters drawn starting from state `s`, one draw per letter.
pub open spec fn word_chars(s: u64, n: nat) -> Seq<char>
    decreases n,
{
    if n == 0 {
        Seq::empty()
    } else {
        seq![letter_of(s)] + word_chars(step_state(s), (n - 1) as nat)
    }
}

/// The pseudo-word produced from state `s`: one length draw in
/// `[lo, hi]`, then that many letter draws.
pub open spec fn word_out(s: u64, lo: u64, hi: u64) -> Seq<char> {
    word_chars(step_state(s), range_out(s, lo, hi) as nat)
}

/// The state left behind after drawing a pseudo-word from `s`.
pub open spec fn word_end_state(s: u64, lo: u64, hi: u64) -> u64 {
    step_n(step_state(s), range_out(s, lo, hi) as nat)
}

/// True of characters in `a ..= z`.
pub open spec fn is_lower(c: char) -> bool {
    0x61 <= (c as u32) <= 0x7A
}

/// A deterministic pseudo-random stream.  The view of a stream is its
/// current 64-bit state.
pub struct Stream {
    state: u64,
}

impl View for Stream {
    type V = u64;

    closed spec fn view(&self) -> u64 {
        self.state
    }
}

impl Stream {
    /// Derives a stream from a seed string.  Equal seeds give equal
    /// streams; nothing else enters the state.
    pub fn from_seed(seed: &str) -> (s: Stream)
        ensures
            s@ == seed_state(seed@),
    {
        let n: usize = seed.unicode_len();
        let mut h: u64 = SEED_OFFSET;
        let mut i: usize = 0;
        while i < n
            invariant
                i <= n,
                n == seed@.len(),
                h == seed_hash_prefix(seed@, i as nat),
            decreases n - i,
        {
            let c: char = seed.get_char(i);
            h = (h ^ ((c as u32) as u64)).wrapping_mul(SEED_PRIME);
            i = i + 1;
        }
        Stream { state: h }
    }

    /// One raw draw: steps the state and mixes it into the output.
    pub fn next_u64(&mut self) -> (r: u64)
        ensures
            final(self)@ == step_state(old(self)@),
            r == stream_out(old(self)@),
    {
        self.state = self.state.wrapping_add(STEP_INCREMENT);
        let z0: u64 = self.state;
        let z1: u64 = (z0 ^ (z0 >> 30)).wrapping_mul(MIX_MUL_A);
        let z2: u64 = (z1 ^ (z1 >> 27)).wrapping_mul(MIX_MUL_B);
        z2 ^ (z2 >> 31)
    }

    /// Generates a pseudo-word: one length draw in `[min_len, max_len]`,
    /// then that many independent lowercase letter draws.
    pub fn next_word(&mut self, min_len: usize, max_len: usize) -> (w: String)
        requires
            1 <= min_len <= max_len,
        ensures
            w@ == word_out(old(self)@, min_len as u64, max_len as u64),
            final(self)@ == word_end_state(old(self)@, min_len as u64, max_len as u64),
            min_len <= w@.len() <= max_len,
            forall|i: int| 0 <= i < w@.len() ==> is_lower(#[trigger] w@[i]),
    {
        let ghost s0: u64 = self@;
        let len_u: u64 = self.next_uint_range(min_len as u64, max_len as u64);
        let len: usize = len_u as usize;
        let ghost s1: u64 = self@;
        let mut w: String = String::new();
        let mut i: usize = 0;
        while i < len
            invariant
                i <= len,
                len == range_out(s0, min_len as u64, max_len as u64),
                s1 == step_state(s0),
                self@ == step_n(s1, i as nat),
                w@.len() == i,
                w@ + word_chars(self@, (len - i) as nat) =~= word_chars(s1, len as nat),
                forall|j: int| 0 <= j < w@.len() ==> is_lower(#[trigger] w@[j]),
            decreases len - i,
        {
            let ghost pre_w = w@;
            let ghost pre_s = self@;
            let d: u64 = self.next_u64();
            let c: char = (0x61u8 + (d % 26) as u8) as char;
            crate::text::push_char(&mut w, c);
            proof {
                assert(c == letter_of(pre_s));
                assert(is_lower(c));
                assert(word_chars(pre_s, (len - i) as nat) == seq![c] + word_chars(
                    step_state(pre_s),
                    (len - i - 1) as nat,
                ));
                assert(pre_w.push(c) + word_chars(self@, (len - i - 1) as nat) =~= pre_w + (
                seq![c] + word_chars(self@, (len - i - 1) as nat)));
            }
            i = i + 1;
        }
        proof {
            assert(word_chars(self@, 0) =~= Seq::<char>::empty());
            assert(w@ + Seq::<char>::empty() =~= w@);
        }
        w
    }

    /// One inclusive draw from `[lo, hi]`, consuming a single raw draw.
    pub fn next_uint_range(&mut self, lo: u64, hi: u64) -> (r: u64)
        requires
            lo <= hi,
            hi - lo < u64::MAX,
        ensures
            final(self)@ == step_state(old(self)@),
            r == range_out(old(self)@, lo, hi),
            lo <= r <= hi,
    {
        let d: u64 = self.next_u64();
        let span: u64 = hi - lo + 1;
        lo + d % span
    }
}

} // verus!

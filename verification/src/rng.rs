//! A random number generator that reproduces glibc's `rand()` exactly.
//!
//! glibc's default generator (TYPE_3) is an additive lagged Fibonacci
//! generator over 31 words of state with separation 3.  `srand(seed)` fills the
//! state with the Park-Miller minimal standard LCG and then discards 310
//! outputs.
use vstd::prelude::*;

verus! {

/// Number of words of generator state.
pub const DEGREE: usize = 31;

/// The largest value `rand()` returns.
pub const RAND_MAX: i32 = 0x7fffffff;

/// glibc replaces a zero seed by one.
pub open spec fn normalized_seed(seed: u32) -> u32 {
    if seed == 0 { 1 } else { seed }
}

/// A state word read as a signed 32-bit integer.
pub open spec fn as_signed(w: u32) -> int {
    if w < 0x8000_0000 { w as int } else { w as int - 0x1_0000_0000 }
}

/// Quotient of Rust's truncating division by a positive divisor.
pub open spec fn trunc_div(a: int, d: int) -> int {
    if a >= 0 { a / d } else { -((-a) / d) }
}

/// Remainder of Rust's truncating division by a positive divisor.
pub open spec fn trunc_rem(a: int, d: int) -> int {
    if a >= 0 { a % d } else { -((-a) % d) }
}

/// One step of the Park-Miller LCG `x -> 16807 x mod (2^31 - 1)`,
/// computed with Schrage's method on the signed reading of the word.
pub open spec fn lcg_next(prev: u32) -> u32 {
    let p = as_signed(prev);
    let word = 16807 * trunc_rem(p, 127773) - 2836 * trunc_div(p, 127773);
    if word < 0 { (word + 2147483647) as u32 } else { word as u32 }
}

/// The `i`-th word written by the seeding LCG.
pub open spec fn lcg_word(seed: u32, i: nat) -> u32
    decreases i,
{
    if i == 0 { normalized_seed(seed) } else { lcg_next(lcg_word(seed, (i - 1) as nat)) }
}

/// The state right after the LCG fill, before the discarded outputs.
pub open spec fn lcg_state(seed: u32) -> Seq<u32> {
    Seq::new(DEGREE as nat, |j: int| lcg_word(seed, j as nat))
}

/// Index of the word read together with the word at `f` (three places behind).
pub open spec fn rear_of(f: int) -> int {
    (f + 28) % 31
}

/// One generator step at front index `f`: the word at `f` absorbs the word
/// three places behind it.
pub open spec fn step(s: Seq<u32>, f: int) -> Seq<u32> {
    s.update(f, s[f].wrapping_add(s[rear_of(f)]))
}

/// The state after `k` steps starting at front index `f0`.
pub open spec fn iterate(s: Seq<u32>, f0: int, k: nat) -> Seq<u32>
    decreases k,
{
    if k == 0 {
        s
    } else {
        let prev = iterate(s, f0, (k - 1) as nat);
        step(prev, (f0 + k - 1) % 31)
    }
}

/// The state that `srand(seed)` leaves: the LCG fill followed by 310 steps.
pub open spec fn seeded_state(seed: u32) -> Seq<u32> {
    iterate(lcg_state(seed), 3, 310)
}

/// The generator's state after one call of `rand` from state `g` (words and
/// front index).
pub open spec fn next_state(g: (Seq<u32>, int)) -> (Seq<u32>, int) {
    (step(g.0, g.1), (g.1 + 1) % 31)
}

/// What `rand` returns from state `g`.
pub open spec fn output(g: (Seq<u32>, int)) -> int {
    step(g.0, g.1)[g.1] as int / 2
}

/// The generator state after `n` calls of `rand` from state `g`.
pub open spec fn state_after(g: (Seq<u32>, int), n: nat) -> (Seq<u32>, int)
    decreases n,
{
    if n == 0 {
        g
    } else {
        next_state(state_after(g, (n - 1) as nat))
    }
}

/// Seeds 0 and 1 fill the generator with the same state, so every call of
/// `rand` after seeding with 0 returns what the same call returns after
/// seeding with 1.
pub proof fn lemma_zero_seed_acts_as_one()
    ensures
        seeded_state(0) == seeded_state(1),
        forall|n: nat| #[trigger] output(state_after((seeded_state(0), 3), n)) == output(
            state_after((seeded_state(1), 3), n),
        ),
{
    assert forall|i: nat| lcg_word(0, i) == lcg_word(1, i) by {
        lemma_lcg_words_agree(i);
    }
    assert(lcg_state(0) =~= lcg_state(1));
}

proof fn lemma_lcg_words_agree(i: nat)
    ensures
        lcg_word(0, i) == lcg_word(1, i),
    decreases i,
{
    if i > 0 {
        lemma_lcg_words_agree((i - 1) as nat);
    }
}

/// glibc-compatible pseudo random number generator.
pub struct GlibcRand {
    state: Vec<u32>,
    fptr: usize,
    rptr: usize,
}

impl GlibcRand {
    /// The 31 state words.
    pub closed spec fn words(&self) -> Seq<u32> {
        self.state@
    }

    /// The front index: the word that the next call to `rand` updates.
    pub closed spec fn front(&self) -> int {
        self.fptr as int
    }

    /// The words and the front index together.
    pub open spec fn gen_state(&self) -> (Seq<u32>, int) {
        (self.words(), self.front())
    }

    /// The state is 31 words and the rear index trails the front by three.
    pub closed spec fn wf(&self) -> bool {
        &&& self.state@.len() == DEGREE
        &&& self.fptr < DEGREE
        &&& self.rptr < DEGREE
        &&& self.rptr as int == rear_of(self.fptr as int)
    }

    /// Seeds the generator as glibc's `srand(seed)` does; a zero seed acts as one.
    #[verifier::spinoff_prover]
    pub fn new(seed: u32) -> (r: Self)
        ensures
            r.wf(),
            r.words() == seeded_state(seed),
            r.front() == 3,
    {
        let s0 = if seed == 0 { 1u32 } else { seed };
        let mut state: Vec<u32> = Vec::new();
        state.push(s0);
        let mut i: usize = 1;
        while i < DEGREE
            invariant
                1 <= i <= DEGREE,
                state@.len() == i,
                forall|j: int| 0 <= j < i ==> state@[j] == lcg_word(seed, j as nat),
            decreases DEGREE - i,
        {
            let prev = state[i - 1];
            let word = park_miller_step(prev);
            state.push(word);
            i = i + 1;
        }
        assert(state@ =~= lcg_state(seed));
        let ghost init = state@;
        let mut fptr: usize = 3;
        let mut rptr: usize = 0;
        let mut k: usize = 0;
        while k < 310
            invariant
                k <= 310,
                state@.len() == DEGREE,
                fptr < DEGREE,
                fptr as int == (3 + k) % 31,
                rptr as int == rear_of(fptr as int),
                state@ == iterate(init, 3, k as nat),
            decreases 310 - k,
        {
            let sum = state[fptr].wrapping_add(state[rptr]);
            state.set(fptr, sum);
            fptr = (fptr + 1) % DEGREE;
            rptr = (rptr + 1) % DEGREE;
            k = k + 1;
        }
        GlibcRand { state, fptr: 3, rptr: 0 }
    }

    /// Returns the next value of glibc's `rand()`, in `[0, RAND_MAX]`.
    pub fn rand(&mut self) -> (r: i32)
        requires
            old(self).wf(),
        ensures
            final(self).wf(),
            final(self).words() == step(old(self).words(), old(self).front()),
            final(self).front() == (old(self).front() + 1) % 31,
            r as int == step(old(self).words(), old(self).front())[old(self).front()] / 2,
            final(self).gen_state() == next_state(old(self).gen_state()),
            r as int == output(old(self).gen_state()),
            0 <= r <= RAND_MAX,
    {
        let sum = self.state[self.fptr].wrapping_add(self.state[self.rptr]);
        self.state.set(self.fptr, sum);
        let result = (sum >> 1u32) & 0x7fffffffu32;
        assert(result == sum / 2) by (bit_vector)
            requires
                result == (sum >> 1u32) & 0x7fffffffu32,
        ;
        self.fptr = (self.fptr + 1) % DEGREE;
        self.rptr = (self.rptr + 1) % DEGREE;
        result as i32
    }

    /// Returns `min + rand() % (max - min)`, a value in `[min, max)`.
    pub fn random_range(&mut self, min: i32, max: i32) -> (r: i32)
        requires
            old(self).wf(),
            min < max,
            max - min <= i32::MAX,
        ensures
            final(self).wf(),
            final(self).words() == step(old(self).words(), old(self).front()),
            final(self).front() == (old(self).front() + 1) % 31,
            r == min + (step(old(self).words(), old(self).front())[old(self).front()] as int / 2) % (
            (max - min) as int),
            min <= r < max,
    {
        let x = self.rand();
        min + x % (max - min)
    }
}

/// One Park-Miller step on a state word, as `srand` computes it with
/// Schrage's method on the signed reading of the word.
fn park_miller_step(prev: u32) -> (r: u32)
    ensures
        r == lcg_next(prev),
{
    let word: i64 = if prev < 0x8000_0000u32 {
        let p = prev as i64;
        let lo = p % 127773;
        let hi = p / 127773;
        assert(0 <= lo < 127773 && 0 <= hi <= 16807);
        16807 * lo - 2836 * hi
    } else {
        let m = 0x1_0000_0000i64 - prev as i64;
        let lo = m % 127773;
        let hi = m / 127773;
        assert(0 <= lo < 127773 && 0 <= hi <= 16808);
        assert(0 <= 16807 * lo <= 16807 * 127772) by (nonlinear_arith)
            requires
                0 <= lo < 127773,
        ;
        assert(0 <= 2836 * hi <= 2836 * 16808) by (nonlinear_arith)
            requires
                0 <= hi <= 16808,
        ;
        2836 * hi - 16807 * lo
    };
    assert(word == 16807 * trunc_rem(as_signed(prev), 127773) - 2836 * trunc_div(
        as_signed(prev),
        127773,
    ));
    if word < 0 {
        (word + 2147483647) as u32
    } else {
        word as u32
    }
}

} // verus!

use vstd::prelude::*;

verus! {

/// State of a combined Tausworthe generator: four 64-bit words.
pub struct PrngState {
    u: [u64; 4],
}

/// A pseudo-random number generator.
pub trait Prng {
    /// The generator's four state words.
    spec fn words(&self) -> Seq<u64>;

    /// Loads the fixed seed, conditions it and discards one output.
    fn seed_secure(&mut self)
        ensures
            final(self).words() == step_state(conditioned(seed_words())),
    ;

    fn condition(&mut self)
        requires
            old(self).words().len() == 4,
        ensures
            final(self).words() == conditioned(old(self).words()),
    ;

    fn gen_u64(&mut self) -> (r: u64)
        requires
            old(self).words().len() == 4,
        ensures
            final(self).words() == step_state(old(self).words()),
            r == step_output(old(self).words()),
    ;

    /// The bits of a double in [1, 2) with a random mantissa.
    fn gen_u64d(&mut self) -> (r: u64)
        requires
            old(self).words().len() == 4,
        ensures
            final(self).words() == step_state(old(self).words()),
            r == (step_output(old(self).words()) & 0x000f_ffff_ffff_ffff) | 0x3ff0_0000_0000_0000,
    ;
}

/// One Tausworthe component step on word `z` with parameters `(k, q, s)`.
pub open spec fn tw_next(z: u64, k: u64, q: u64, s: u64) -> u64 {
    (((z << q) ^ z) >> ((k - s) as u64)) ^ ((z & (0xffff_ffff_ffff_ffffu64 << ((64 - k) as u64))) << s)
}

/// The four words after one step of the generator.
pub open spec fn step_state(u: Seq<u64>) -> Seq<u64> {
    seq![
        tw_next(u[0], 63, 31, 18),
        tw_next(u[1], 58, 19, 28),
        tw_next(u[2], 55, 24, 7),
        tw_next(u[3], 47, 21, 8),
    ]
}

/// The output of a step: the exclusive or of the four new words.
pub open spec fn step_output(u: Seq<u64>) -> u64 {
    let n = step_state(u);
    n[0] ^ n[1] ^ n[2] ^ n[3]
}

/// Each word raised past its minimum so that no component is degenerate.
pub open spec fn conditioned(u: Seq<u64>) -> Seq<u64> {
    seq![
        if u[0] < 2 { (u[0] + 2) as u64 } else { u[0] },
        if u[1] < 64 { (u[1] + 64) as u64 } else { u[1] },
        if u[2] < 512 { (u[2] + 64) as u64 } else { u[2] },
        if u[3] < 0x20000 { (u[3] + 0x20000) as u64 } else { u[3] },
    ]
}

/// The fixed seed words.
pub open spec fn seed_words() -> Seq<u64> {
    seq![0xa0d277570a345b8cu64, 0x764a296c5d4aa64fu64, 0x51220704070adeaau64, 0x2a2717b5a7b7b927u64]
}

fn tw223_gen(prng: &mut PrngState, idx: usize, r: &mut u64, k: u64, q: u64, s: u64)
    requires
        idx < 4,
        0 < k < 64,
        q < 64,
        s < 64,
        s < k,
    ensures
        final(prng)@ == old(prng)@.update(idx as int, tw_next(old(prng)@[idx as int], k, q, s)),
        *final(r) == *old(r) ^ tw_next(old(prng)@[idx as int], k, q, s),
{
    let z = prng.u[idx];
    let n = (((z << q) ^ z) >> (k - s)) ^ ((z & (0xffff_ffff_ffff_ffffu64 << (64 - k))) << s);
    prng.u[idx] = n;
    proof {
        assert(prng.u@ =~= old(prng)@.update(idx as int, n));
    }
    *r = *r ^ n;
}

fn tw223_step(prng: &mut PrngState, r: &mut u64)
    requires
        *old(r) == 0,
    ensures
        final(prng)@ == step_state(old(prng)@),
        *final(r) == step_output(old(prng)@),
{
    let ghost u0 = prng@;
    tw223_gen(prng, 0, r, 63, 31, 18);
    tw223_gen(prng, 1, r, 58, 19, 28);
    tw223_gen(prng, 2, r, 55, 24, 7);
    tw223_gen(prng, 3, r, 47, 21, 8);
    proof {
        assert(prng@ =~= step_state(u0));
        let a = tw_next(u0[0], 63, 31, 18);
        assert(0u64 ^ a == a) by (bit_vector);
    }
}

impl View for PrngState {
    type V = Seq<u64>;

    closed spec fn view(&self) -> Seq<u64> {
        self.u@
    }
}

impl PrngState {
    /// A generator with all four words zero.
    pub fn new() -> (r: PrngState)
        ensures
            r@ == seq![0u64, 0u64, 0u64, 0u64],
    {
        let r = PrngState { u: [0;4] };
        proof {
            assert(r@ =~= seq![0u64, 0u64, 0u64, 0u64]);
        }
        r
    }

    /// Word `i` of the state, if `i < 4`.
    pub fn get(&self, i: usize) -> (r: Option<u64>)
        ensures
            self@.len() == 4,
            i < 4 ==> r == Some(self@[i as int]),
            i >= 4 ==> r is None,
    {
        proof {
            assert(self.u@.len() == 4);
        }
        if i < 4 {
            Some(self.u[i])
        } else {
            None
        }
    }
}

impl Prng for PrngState {
    open spec fn words(&self) -> Seq<u64> {
        self@
    }

    fn seed_secure(&mut self) {
        self.u[0] = 0xa0d277570a345b8c;
        self.u[1] = 0x764a296c5d4aa64f;
        self.u[2] = 0x51220704070adeaa;
        self.u[3] = 0x2a2717b5a7b7b927;
        proof {
            assert(self@ =~= seed_words());
        }
        self.condition();
        self.gen_u64();
    }

    fn gen_u64d(&mut self) -> u64 {
        let mut r: u64 = 0;
        tw223_step(self, &mut r);
        (r & 0x000f_ffff_ffff_ffff) | 0x3ff0_0000_0000_0000
    }

    fn gen_u64(&mut self) -> u64 {
        let mut r: u64 = 0;
        tw223_step(self, &mut r);
        r
    }

    fn condition(&mut self) {
        if self.u[0] < 2 {
            self.u[0] = self.u[0] + 2;
        }
        if self.u[1] < 64 {
            self.u[1] = self.u[1] + 64;
        }
        if self.u[2] < 512 {
            self.u[2] = self.u[2] + 64;
        }
        if self.u[3] < 0x20000 {
            self.u[3] = self.u[3] + 0x20000;
        }
        proof {
            assert(self@ =~= conditioned(old(self)@));
        }
    }
}

} // verus!

//! The transform backend for a word-sized prime modulus: finding a primitive root of
//! unity, and the twiddle tables in bit-reversed order that the transforms read.
use vstd::prelude::*;
use vstd::arithmetic::div_mod::{
    lemma_add_mod_noop, lemma_div_pos_is_pos, lemma_fundamental_div_mod, lemma_fundamental_div_mod_converse, lemma_mod_bound,
    lemma_mod_twice, lemma_mul_mod_noop_general, lemma_small_mod, lemma_sub_mod_noop,
};
use vstd::arithmetic::power::{
    lemma0_pow, lemma1_pow, lemma_pow0, lemma_pow1, lemma_pow_adds, lemma_pow_distributes,
    lemma_pow_mod_noop, lemma_pow_multiplies, pow,
};
use vstd::arithmetic::power2::{lemma2_to64, lemma2_to64_rest, lemma_pow2_pos, lemma_pow2_unfold, pow2};
use rand::Rng;
use rand::SeedableRng;
use rand_chacha::ChaCha8Rng;
use crate::arith::{
    lemma_congruent_mul, mod_exponent, mod_inverse, mul_mod, shoup_repr_spec, shoup_representation,
};
use crate::bit_reverse::{bit_reverse, lemma_bit_reverse_bound, lemma_bit_reverse_involution, reverse_bits};
use crate::convolution::{
    evaluate, lemma_ct_stages_eval, lemma_ntt_convolution, negacyclic_mul, root_table, stage_value,
};
use crate::fermat::{is_prime, lemma_euclid, lemma_fermat};
use crate::ntt::{all_below, lemma_ntt_round_trip, ntt, ntt_inv, ntt_inv_lazy, ntt_lazy, twiddle_table};
use crate::ntt_spec::{
    as_ints, congruent, intt_spec, inverse_tables, is_power_of_two, lemma_congruent_trans,
    lemma_ct_stages_len, lemma_intt_congruent, lemma_intt_ntt, log2_floor, ntt_spec,
};

verus! {

/// The ChaCha random number generator with 8 rounds.
#[verifier::external_type_specification]
#[verifier::external_body]
pub struct ExChaCha8Rng(ChaCha8Rng);

/// Word `index` (counting from `0`) of the stream of `u64` words that a ChaCha generator with 8
/// rounds, seeded with `seed`, yields to successive `gen::<u64>()` calls.
pub uninterp spec fn chacha8_word(seed: Seq<u8>, index: nat) -> u64;

/// A ChaCha generator with 8 rounds, with the seed it was made from and the number of words
/// it has yielded since.
pub struct SeededStream {
    rng: ChaCha8Rng,
    seed: Ghost<Seq<u8>>,
    position: Ghost<nat>,
}

impl SeededStream {
    /// The seed of the generator.
    pub closed spec fn seed(&self) -> Seq<u8> {
        self.seed@
    }

    /// The number of words the generator has yielded.
    pub closed spec fn position(&self) -> nat {
        self.position@
    }

    /// A generator seeded with `seed`, at the start of its stream.
    pub fn new(seed: [u8; 32]) -> (s: Self)
        ensures
            s.seed() == seed@,
            s.position() == 0,
    {
        seeded_stream(seed)
    }
}

/// Calls `SeedableRng::from_seed` of `rand_chacha::ChaCha8Rng`: the generator at the start of
/// the stream that the seed fixes.
#[verifier::external_body]
fn seeded_stream(seed: [u8; 32]) -> (s: SeededStream)
    ensures
        s.seed() == seed@,
        s.position() == 0,
{
    SeededStream { rng: ChaCha8Rng::from_seed(seed), seed: Ghost(seed@), position: Ghost(0) }
}

/// Calls `Rng::gen::<u64>` on the generator (for `u64` this is `RngCore::next_u64`): the next
/// word of the stream that the seed fixes, which moves the generator one word on.
#[verifier::external_body]
fn next_word(s: &mut SeededStream) -> (w: u64)
    ensures
        w == chacha8_word(old(s).seed(), old(s).position()),
        final(s).seed() == old(s).seed(),
        final(s).position() == old(s).position() + 1,
{
    s.rng.gen::<u64>()
}

/// `omega` is the `(q - 1) / n`-th power modulo `q` of some residue `s`, so that
/// `omega^n == s^(q-1) (mod q)`.
pub open spec fn is_root_power(omega: int, q: int, n: int) -> bool {
    exists|s: int| 0 <= s < q && omega == #[trigger] pow(s, ((q - 1) / n) as nat) % q
}

/// What a primitive `n`-th root of unity found by sampling satisfies: it is a nonzero reduced
/// `(q - 1) / n`-th power, and its `n / 2`-th power is not `1` modulo `q`.
pub open spec fn root_candidate(omega: int, q: int, n: int) -> bool {
    &&& 0 < omega < q
    &&& is_root_power(omega, q, n)
    &&& pow(omega, (n / 2) as nat) % q != 1
}

/// The candidate that the word `sample` gives for an `n`-th root of unity modulo `q`: the
/// sample reduced modulo `q`, raised to `(q - 1) / n`; kept when it is not zero and its
/// `n / 2`-th power is not `1`.
pub open spec fn candidate(sample: u64, q: u64, n: u64) -> Option<u64> {
    let omega = pow((sample % q) as int, ((q - 1) / (n as int)) as nat) % (q as int);
    if omega == 0 || pow(omega, (n / 2) as nat) % (q as int) == 1 {
        None
    } else {
        Some(omega as u64)
    }
}

/// The search for a root through at most `tries` words of the stream of `seed`, from word
/// `position` on: the first kept candidate, and the position after the last word drawn.
pub open spec fn root_search(seed: Seq<u8>, position: nat, tries: nat, q: u64, n: u64) -> (
    Option<u64>,
    nat,
)
    decreases tries,
{
    if tries == 0 {
        (None, position)
    } else {
        match candidate(chacha8_word(seed, position), q, n) {
            Some(w) => (Some(w), position + 1),
            None => root_search(seed, position + 1, (tries - 1) as nat, q, n),
        }
    }
}

/// Turns one random word into a candidate `n`-th root of unity modulo `q` (see
/// [`candidate`]); for `n` a power of two the test of the `n / 2`-th power is what makes a
/// nonzero candidate primitive.
pub fn primitive_root_candidate(sample: u64, q: u64, n: u64) -> (r: Option<u64>)
    requires
        n >= 2,
        q % n == 1,
    ensures
        r == candidate(sample, q, n),
        ({
            let w = pow((sample % q) as int, ((q as int - 1) / (n as int)) as nat) % (q as int);
            &&& (w != 0 && pow(w, (n / 2) as nat) % (q as int) != 1) ==> r == Some(w as u64)
            &&& (w == 0 || pow(w, (n / 2) as nat) % (q as int) == 1) ==> r is None
        }),
{
    proof {
        // q % n == 1 rules out q == 0
        if q == 0 {
            assert(0u64 % n == 0);
        }
        lemma_candidate_exact(sample, q, n);
    }
    let t = (q - 1) / n;
    let omega = mod_exponent(sample % q, t, q);
    if omega == 0 || mod_exponent(omega, n / 2, q) == 1 {
        None
    } else {
        Some(omega)
    }
}

/// Finds an `n`-th root of unity in `F_q` by drawing up to a hundred words from `rng`, if one
/// exists (one exists if and only if `q == 1 (mod n)`; otherwise nothing is drawn and the
/// result is `None`). The result is the first candidate that passes the test of
/// [`primitive_root_candidate`], or `None` after a hundred rejected ones.
pub fn find_primitive_root(q: u64, n: u64, rng: &mut SeededStream) -> (r: Option<u64>)
    requires
        is_power_of_two(n as nat),
    ensures
        final(rng).seed() == old(rng).seed(),
        q % n != 1 ==> r is None && final(rng).position() == old(rng).position(),
        q % n == 1 ==> (r, final(rng).position()) == root_search(
            old(rng).seed(),
            old(rng).position(),
            100,
            q,
            n,
        ),
        r matches Some(omega) ==> root_candidate(omega as int, q as int, n as int),
        q % n == 1 ==> ((r is None) <==> (forall|i: nat|
            old(rng).position() <= i < old(rng).position() + 100 ==> #[trigger] word_candidate(
                old(rng).seed(),
                i,
                q,
                n,
            ) is None)),
        q % n == 1 ==> forall|i: nat|
            old(rng).position() <= i < old(rng).position() + 100 && #[trigger] word_candidate(
                old(rng).seed(),
                i,
                q,
                n,
            ) is Some && (forall|j: nat|
                old(rng).position() <= j < i ==> #[trigger] word_candidate(old(rng).seed(), j, q, n)
                    is None) ==> r == word_candidate(old(rng).seed(), i, q, n)
                && final(rng).position() == i + 1,
{
    if q % n != 1 {
        return None;
    }
    let ghost seed = rng.seed();
    let ghost start = rng.position();
    let mut tries: u32 = 0;
    while tries < 100
        invariant
            n >= 2,
            q % n == 1,
            tries <= 100,
            seed == old(rng).seed(),
            start == old(rng).position(),
            rng.seed() == seed,
            root_search(seed, start, 100, q, n) == root_search(
                seed,
                rng.position(),
                (100 - tries) as nat,
                q,
                n,
            ),
        decreases 100 - tries,
    {
        let ghost pos = rng.position();
        let sample = next_word(rng);
        match primitive_root_candidate(sample, q, n) {
            Some(omega) => {
                proof {
                    let s = (sample % q) as int;
                    if q == 0 {
                        assert(0u64 % n == 0);
                    }
                    assert(omega as int == pow(s, ((q as int - 1) / (n as int)) as nat) % (q as int));
                    assert(root_search(seed, pos, (100 - tries) as nat, q, n) == (
                        Some(omega),
                        pos + 1,
                    ));
                    lemma_root_search_first(seed, start, 100, q, n);
                }
                return Some(omega);
            },
            None => {},
        }
        tries = tries + 1;
    }
    proof {
        lemma_root_search_first(seed, start, 100, q, n);
    }
    None
}

/// `floor(log2(n))` for `n >= 1`.
fn log2_of(n: usize) -> (r: usize)
    requires
        n >= 1,
    ensures
        r == log2_floor(n as nat),
        r < 64,
{
    let mut x = n;
    let mut r: usize = 0;
    proof {
        lemma2_to64();
        lemma2_to64_rest();
    }
    while x > 1
        invariant
            x >= 1,
            r < 64,
            r + log2_floor(x as nat) == log2_floor(n as nat),
            x as int * pow2(r as nat) <= n,
            pow2(64) == 0x1_0000_0000_0000_0000,
        decreases x,
    {
        proof {
            lemma_pow2_unfold((r + 1) as nat);
            lemma_pow2_pos(r as nat);
            assert((x / 2) as int * pow2((r + 1) as nat) <= x as int * pow2(r as nat)) by (nonlinear_arith)
                requires
                    pow2((r + 1) as nat) == 2 * pow2(r as nat),
                    pow2(r as nat) >= 0,
            ;
            assert(pow2((r + 1) as nat) <= x as int * pow2(r as nat)) by (nonlinear_arith)
                requires
                    pow2((r + 1) as nat) == 2 * pow2(r as nat),
                    x >= 2,
                    pow2(r as nat) >= 0,
            ;
            if r + 1 >= 64 {
                assert(r + 1 == 64);
                assert(false);
            }
        }
        x = x / 2;
        r = r + 1;
    }
    r
}

/// The powers `base^0, ..., base^(n-1)` modulo `q`.
fn powers_table(base: u64, n: usize, q: u64) -> (v: Vec<u64>)
    requires
        q > 1,
    ensures
        v@.len() == n,
        forall|i: int| 0 <= i < n ==> #[trigger] v@[i] as int == pow(base as int, i as nat) % (q as int),
{
    let mut v: Vec<u64> = Vec::with_capacity(n);
    let mut running: u64 = 1;
    let mut i: usize = 0;
    proof {
        lemma_pow0(base as int);
        lemma_small_mod(1, q as nat);
    }
    while i < n
        invariant
            q > 1,
            i <= n,
            v@.len() == i,
            running as int == pow(base as int, i as nat) % (q as int),
            forall|j: int| 0 <= j < i ==> #[trigger] v@[j] as int == pow(base as int, j as nat) % (q as int),
        decreases n - i,
    {
        v.push(running);
        proof {
            lemma_pow_adds(base as int, i as nat, 1);
            lemma_pow1(base as int);
            lemma_mul_mod_noop_general(pow(base as int, i as nat), base as int, q as int);
        }
        running = mul_mod(running, base, q);
        i = i + 1;
    }
    v
}

/// Two indices below `2^b` with the same bit reversal are equal.
proof fn lemma_bit_reverse_injective(i: nat, j: nat, b: nat)
    requires
        i < pow2(b),
        j < pow2(b),
        bit_reverse(i, b) == bit_reverse(j, b),
    ensures
        i == j,
{
    lemma_bit_reverse_involution(i, b);
    lemma_bit_reverse_involution(j, b);
}

/// `table` stored in bit-reversed order: entry `i` moves to position `bit_reverse(i, bits)`.
fn bit_reversed(table: &Vec<u64>, bits: usize, q: u64) -> (v: Vec<u64>)
    requires
        table@.len() == pow2(bits as nat),
        pow2(bits as nat) <= usize::MAX,
        forall|i: int| 0 <= i < table@.len() ==> #[trigger] table@[i] < q,
        q > 0,
    ensures
        v@.len() == table@.len(),
        forall|i: int| 0 <= i < v@.len() ==> #[trigger] v@[bit_reverse(i as nat, bits as nat) as int] == table@[i],
        forall|k: int| 0 <= k < v@.len() ==> #[trigger] v@[k] < q,
{
    let n = table.len();
    let mut v: Vec<u64> = vec![0u64; n];
    let mut i: usize = 0;
    while i < n
        invariant
            n == table@.len(),
            n == pow2(bits as nat),
            pow2(bits as nat) <= usize::MAX,
            q > 0,
            v@.len() == n,
            i <= n,
            forall|k: int| 0 <= k < table@.len() ==> #[trigger] table@[k] < q,
            forall|j: int| 0 <= j < i ==> #[trigger] v@[bit_reverse(j as nat, bits as nat) as int] == table@[j],
            forall|k: int| 0 <= k < n ==> #[trigger] v@[k] < q,
        decreases n - i,
    {
        let bo_index = reverse_bits(i, bits);
        proof {
            lemma_bit_reverse_bound(i as nat, bits as nat);
        }
        let ghost prev = v@;
        v.set(bo_index, table[i]);
        proof {
            assert forall|j: int| 0 <= j < i + 1 implies #[trigger] v@[bit_reverse(j as nat, bits as nat) as int] == table@[j] by {
                lemma_bit_reverse_bound(j as nat, bits as nat);
                if j < i {
                    assert(prev[bit_reverse(j as nat, bits as nat) as int] == table@[j]);
                    if bit_reverse(j as nat, bits as nat) == bit_reverse(i as nat, bits as nat) {
                        lemma_bit_reverse_injective(j as nat, i as nat, bits as nat);
                    }
                }
            }
        }
        i = i + 1;
    }
    v
}

/// The Shoup quotients of the entries of `table`, all reduced modulo `q`.
fn shoup_table(table: &Vec<u64>, q: u64) -> (v: Vec<u64>)
    requires
        forall|i: int| 0 <= i < table@.len() ==> #[trigger] table@[i] < q,
    ensures
        v@.len() == table@.len(),
        forall|i: int| 0 <= i < v@.len() ==> #[trigger] v@[i] == shoup_repr_spec(table@[i] as int, q as int),
{
    let mut v: Vec<u64> = Vec::with_capacity(table.len());
    let mut i: usize = 0;
    while i < table.len()
        invariant
            i <= table@.len(),
            v@.len() == i,
            forall|k: int| 0 <= k < table@.len() ==> #[trigger] table@[k] < q,
            forall|k: int| 0 <= k < i ==> #[trigger] v@[k] == shoup_repr_spec(table@[k] as int, q as int),
        decreases table@.len() - i,
    {
        v.push(shoup_representation(table[i], q));
        i = i + 1;
    }
    v
}

/// Construction of a transform backend for a modulus and a ring size.
pub trait NttInit<M>: Sized {
    /// The moduli and sizes that [`NttInit::new`] accepts.
    spec fn init_accepts(q: &M, n: usize) -> bool;

    /// A backend for the modulus `q` and the ring size `n`; instances must be compatible
    /// across different instances with the same `q` and `n`. `None` where no suitable root of
    /// unity was found.
    fn new(q: &M, n: usize) -> (r: Option<Self>)
        requires
            Self::init_accepts(q, n),
    ;
}

/// Forward and inverse number theoretic transforms in place.
pub trait Ntt {
    type Element;

    /// The vectors that the forward transforms accept.
    spec fn forward_accepts(&self, v: Seq<Self::Element>) -> bool;

    /// The vectors that the inverse transforms accept.
    spec fn backward_accepts(&self, v: Seq<Self::Element>) -> bool;

    fn forward_lazy(&self, v: &mut [Self::Element])
        requires
            self.forward_accepts(old(v)@),
    ;

    fn forward(&self, v: &mut [Self::Element])
        requires
            self.forward_accepts(old(v)@),
    ;

    fn backward_lazy(&self, v: &mut [Self::Element])
        requires
            self.backward_accepts(old(v)@),
    ;

    fn backward(&self, v: &mut [Self::Element])
        requires
            self.backward_accepts(old(v)@),
    ;
}

/// A number theoretic transform backend for a prime modulus `q < 2^63` and a ring size `n`
/// (a power of two), with the powers of a primitive `2n`-th root of unity `psi` and of its
/// inverse in bit-reversed order, their Shoup quotients, and `n^{-1} mod q`.
#[derive(Debug)]
pub struct NttBackendU64 {
    q: u64,
    q_twice: u64,
    _n: u64,
    n_inv: u64,
    n_inv_shoup: u64,
    psi_powers_bo: Vec<u64>,
    psi_inv_powers_bo: Vec<u64>,
    psi_powers_bo_shoup: Vec<u64>,
    psi_inv_powers_bo_shoup: Vec<u64>,
}

impl NttBackendU64 {
    #[verifier::type_invariant]
    spec fn well_formed(self) -> bool {
        let n = self.psi_powers_bo@.len();
        &&& 1 < self.q < 0x8000_0000_0000_0000
        &&& self.q_twice == 2 * self.q
        &&& n >= 2
        &&& is_power_of_two(n)
        &&& self._n == n
        &&& self.psi_inv_powers_bo@.len() == n
        &&& twiddle_table(self.psi_powers_bo@, self.psi_powers_bo_shoup@, n, self.q)
        &&& twiddle_table(self.psi_inv_powers_bo@, self.psi_inv_powers_bo_shoup@, n, self.q)
        &&& self.n_inv < self.q
        &&& self.n_inv_shoup == shoup_repr_spec(self.n_inv as int, self.q as int)
    }

    /// The modulus `q`.
    pub closed spec fn modulus(&self) -> u64 {
        self.q
    }

    /// The ring size `n`, the length of the vectors that the transforms take.
    pub closed spec fn size(&self) -> nat {
        self.psi_powers_bo@.len()
    }

    /// The twiddle table of the forward transform.
    pub closed spec fn forward_table(&self) -> Seq<u64> {
        self.psi_powers_bo@
    }

    /// The twiddle table of the inverse transform.
    pub closed spec fn inverse_table(&self) -> Seq<u64> {
        self.psi_inv_powers_bo@
    }

    /// The factor `n^{-1} mod q` of the inverse transform.
    pub closed spec fn size_inverse(&self) -> u64 {
        self.n_inv
    }

    /// The tables were made from the root `psi`: both have the power-of-two length `n`, position `bit_reverse(i)` of the forward
    /// table holds `psi^i mod q`, that of the inverse table `psi_inv^i mod q` with
    /// `psi_inv == psi^(q-2) mod q`, and `n_inv == n^(q-2) mod q`.
    pub closed spec fn tables_from_root(&self, psi: u64) -> bool {
        let n = self.psi_powers_bo@.len();
        let l = log2_floor(n);
        let qi = self.q as int;
        let psi_inv = pow(psi as int, (qi - 2) as nat) % qi;
        &&& is_power_of_two(n)
        &&& self.psi_inv_powers_bo@.len() == n
        &&& forall|i: int|
            0 <= i < n ==> #[trigger] self.psi_powers_bo@[bit_reverse(i as nat, l) as int] as int
                == pow(psi as int, i as nat) % qi
        &&& forall|i: int|
            0 <= i < n ==> #[trigger] self.psi_inv_powers_bo@[bit_reverse(i as nat, l) as int]
                as int == pow(psi_inv, i as nat) % qi
        &&& self.n_inv as int == pow(n as int, (qi - 2) as nat) % qi
    }

    /// All fields of the backend were built for the modulus `q` and the ring size `n` from the
    /// root `psi`: the tables as [`NttBackendU64::tables_from_root`] says, their Shoup
    /// quotients, that of `n_inv`, and `q_twice == 2q`.
    pub closed spec fn built_from(&self, q: u64, n: nat, psi: u64) -> bool {
        &&& self.q == q
        &&& self.q_twice == 2 * q
        &&& self._n == n
        &&& self.psi_powers_bo@.len() == n
        &&& self.tables_from_root(psi)
        &&& self.psi_powers_bo_shoup@.len() == n
        &&& self.psi_inv_powers_bo_shoup@.len() == n
        &&& forall|k: int|
            0 <= k < n ==> #[trigger] self.psi_powers_bo_shoup@[k] == shoup_repr_spec(
                self.psi_powers_bo@[k] as int,
                q as int,
            )
        &&& forall|k: int|
            0 <= k < n ==> #[trigger] self.psi_inv_powers_bo_shoup@[k] == shoup_repr_spec(
                self.psi_inv_powers_bo@[k] as int,
                q as int,
            )
        &&& self.n_inv_shoup == shoup_repr_spec(self.n_inv as int, q as int)
    }

    /// Every field of the backend: `q`, `2q`, `n`, `n_inv`, its Shoup quotient, the forward
    /// and inverse tables and their Shoup quotients.
    pub closed spec fn parameters(&self) -> (u64, u64, u64, u64, u64, Seq<u64>, Seq<u64>, Seq<u64>, Seq<u64>) {
        (
            self.q,
            self.q_twice,
            self._n,
            self.n_inv,
            self.n_inv_shoup,
            self.psi_powers_bo@,
            self.psi_inv_powers_bo@,
            self.psi_powers_bo_shoup@,
            self.psi_inv_powers_bo_shoup@,
        )
    }

    /// Builds the backend for the modulus `q` and the ring size `n`: `psi` is the `2n`-th root
    /// of unity that the search of [`find_primitive_root`] finds in the stream of a generator
    /// seeded with zeros, and the tables hold the powers of `psi` and of `psi^{-1} = psi^(q-2)`
    /// in bit-reversed order. `None` where no root was found (always so where
    /// `q != 1 (mod 2n)`).
    pub fn _new(q: u64, n: usize) -> (r: Option<Self>)
        requires
            n >= 2,
            is_power_of_two(n as nat),
            2 * n <= usize::MAX,
            1 < q < 0x8000_0000_0000_0000,
        ensures
            r is Some <==> seeded_root(q, n as nat) is Some,
            r matches Some(b) ==> {
                let psi = seeded_root(q, n as nat)->0;
                &&& b.modulus() == q
                &&& b.size() == n
                &&& (q as int) % (2 * n as int) == 1
                &&& root_candidate(psi as int, q as int, 2 * n as int)
                &&& b.built_from(q, n as nat, psi)
            },
            r is None <==> (((q as int) % (2 * n as int) != 1) || forall|i: nat|
                i < 100 ==> #[trigger] word_candidate(zero_seed(), i, q, (2 * n) as u64) is None),
            r matches Some(b) ==> forall|i: nat|
                i < 100 && #[trigger] word_candidate(zero_seed(), i, q, (2 * n) as u64) is Some
                    && (forall|j: nat|
                    j < i ==> #[trigger] word_candidate(zero_seed(), j, q, (2 * n) as u64) is None)
                    ==> b.built_from(q, n as nat, word_candidate(zero_seed(), i, q, (2 * n) as u64)->0),
    {
        proof {
            lemma_seeded_root_first_word(q, n as nat);
        }
        let mut rng = SeededStream::new([0u8; 32]);
        let two_n = (n * 2) as u64;
        proof {
            lemma_pow2_unfold((log2_floor(n as nat) + 1) as nat);
            assert(log2_floor(2 * n as nat) == log2_floor(n as nat) + 1) by {
                assert((2 * n as nat) / 2 == n);
            }
            assert(rng.seed() =~= zero_seed());
        }
        let psi = match find_primitive_root(q, two_n, &mut rng) {
            Some(root) => root,
            None => {
                return None;
            },
        };
        let psi_inv = mod_inverse(psi, q);
        let psi_powers = powers_table(psi, n, q);
        let psi_inv_powers = powers_table(psi_inv, n, q);
        let bits = log2_of(n);
        let psi_powers_bo = bit_reversed(&psi_powers, bits, q);
        let psi_inv_powers_bo = bit_reversed(&psi_inv_powers, bits, q);
        let psi_powers_bo_shoup = shoup_table(&psi_powers_bo, q);
        let psi_inv_powers_bo_shoup = shoup_table(&psi_inv_powers_bo, q);
        let n_inv = mod_inverse(n as u64, q);
        let n_inv_shoup = shoup_representation(n_inv, q);
        let backend = NttBackendU64 {
            q,
            q_twice: 2 * q,
            _n: n as u64,
            n_inv,
            n_inv_shoup,
            psi_powers_bo,
            psi_inv_powers_bo,
            psi_powers_bo_shoup,
            psi_inv_powers_bo_shoup,
        };
        proof {
            assert(two_n as int == 2 * n as int);
            assert(seeded_root(q, n as nat) == Some(psi));
            assert(backend.tables_from_root(psi));
            assert(backend.built_from(q, n as nat, psi));
        }
        Some(backend)
    }
}

/// The zero seed of 32 bytes.
pub open spec fn zero_seed() -> Seq<u8> {
    Seq::new(32, |i: int| 0u8)
}

/// The root that [`NttBackendU64::_new`] builds the backend for `q` and `n` from: the search
/// for a `2n`-th root of unity through the first hundred words of the zero-seeded stream,
/// `None` where `q != 1 (mod 2n)`.
pub open spec fn seeded_root(q: u64, n: nat) -> Option<u64> {
    if (q as int) % (2 * n as int) == 1 {
        root_search(zero_seed(), 0, 100, q, (2 * n) as u64).0
    } else {
        None
    }
}

impl NttInit<u64> for NttBackendU64 {
    open spec fn init_accepts(q: &u64, n: usize) -> bool {
        &&& n >= 2
        &&& is_power_of_two(n as nat)
        &&& 2 * n <= usize::MAX
        &&& 1 < *q < 0x8000_0000_0000_0000
    }

    /// What [`NttBackendU64::_new`] returns for `*q` and `n`.
    fn new(q: &u64, n: usize) -> (r: Option<Self>)
        ensures
            r is Some <==> seeded_root(*q, n as nat) is Some,
            r matches Some(b) ==> {
                let psi = seeded_root(*q, n as nat)->0;
                &&& b.modulus() == *q
                &&& b.size() == n
                &&& (*q as int) % (2 * n as int) == 1
                &&& root_candidate(psi as int, *q as int, 2 * n as int)
                &&& b.built_from(*q, n as nat, psi)
            },
            r is None <==> (((*q as int) % (2 * n as int) != 1) || forall|i: nat|
                i < 100 ==> #[trigger] word_candidate(zero_seed(), i, *q, (2 * n) as u64) is None),
            r matches Some(b) ==> forall|i: nat|
                i < 100 && #[trigger] word_candidate(zero_seed(), i, *q, (2 * n) as u64) is Some
                    && (forall|j: nat|
                    j < i ==> #[trigger] word_candidate(zero_seed(), j, *q, (2 * n) as u64) is None)
                    ==> b.built_from(*q, n as nat, word_candidate(zero_seed(), i, *q, (2 * n) as u64)->0),
    {
        NttBackendU64::_new(*q, n)
    }
}

impl Ntt for NttBackendU64 {
    type Element = u64;

    open spec fn forward_accepts(&self, v: Seq<u64>) -> bool {
        &&& v.len() == self.size()
        &&& self.modulus() < 0x4000_0000_0000_0000
        &&& all_below(v, 4 * self.modulus())
    }

    open spec fn backward_accepts(&self, v: Seq<u64>) -> bool {
        &&& v.len() == self.size()
        &&& self.modulus() < 0x4000_0000_0000_0000
        &&& all_below(v, 2 * self.modulus())
    }

    /// The forward transform with each output in `[0, 2q)`.
    fn forward_lazy(&self, v: &mut [u64])
        ensures
            final(v)@.len() == old(v)@.len(),
            congruent(
                as_ints(final(v)@),
                ntt_spec(as_ints(old(v)@), as_ints(self.forward_table())),
                self.modulus() as int,
            ),
            all_below(final(v)@, 2 * self.modulus()),
    {
        proof {
            use_type_invariant(self);
        }
        ntt_lazy(
            v,
            self.psi_powers_bo.as_slice(),
            self.psi_powers_bo_shoup.as_slice(),
            self.q,
            self.q_twice,
        )
    }

    /// The forward transform reduced modulo `q`.
    fn forward(&self, v: &mut [u64])
        ensures
            final(v)@.len() == old(v)@.len(),
            forall|k: int|
                0 <= k < final(v)@.len() ==> #[trigger] final(v)@[k] as int == ntt_spec(
                    as_ints(old(v)@),
                    as_ints(self.forward_table()),
                )[k] % (self.modulus() as int),
    {
        proof {
            use_type_invariant(self);
        }
        ntt(v, self.psi_powers_bo.as_slice(), self.psi_powers_bo_shoup.as_slice(), self.q, self.q_twice);
    }

    /// The inverse transform with each output in `[0, 2q)`.
    fn backward_lazy(&self, v: &mut [u64])
        ensures
            final(v)@.len() == old(v)@.len(),
            congruent(
                as_ints(final(v)@),
                intt_spec(
                    as_ints(old(v)@),
                    as_ints(self.inverse_table()),
                    self.size_inverse() as int,
                ),
                self.modulus() as int,
            ),
            all_below(final(v)@, 2 * self.modulus()),
    {
        proof {
            use_type_invariant(self);
        }
        ntt_inv_lazy(
            v,
            self.psi_inv_powers_bo.as_slice(),
            self.psi_inv_powers_bo_shoup.as_slice(),
            self.n_inv,
            self.n_inv_shoup,
            self.q,
            self.q_twice,
        )
    }

    /// The inverse transform reduced modulo `q`.
    fn backward(&self, v: &mut [u64])
        ensures
            final(v)@.len() == old(v)@.len(),
            forall|k: int|
                0 <= k < final(v)@.len() ==> #[trigger] final(v)@[k] as int == intt_spec(
                    as_ints(old(v)@),
                    as_ints(self.inverse_table()),
                    self.size_inverse() as int,
                )[k] % (self.modulus() as int),
    {
        proof {
            use_type_invariant(self);
        }
        ntt_inv(
            v,
            self.psi_inv_powers_bo.as_slice(),
            self.psi_inv_powers_bo_shoup.as_slice(),
            self.n_inv,
            self.n_inv_shoup,
            self.q,
            self.q_twice,
        );
    }
}

/// A backend built from a root `psi` that is not zero modulo a prime `q > n` has twiddle
/// tables that undo each other: each entry of the inverse table times the entry of the
/// forward table at the same position is `1` modulo `q`, and so is `n * n_inv`.
pub proof fn lemma_backend_tables_inverse(b: NttBackendU64, psi: u64)
    requires
        is_prime(b.modulus() as nat),
        b.tables_from_root(psi),
        (psi as int) % (b.modulus() as int) != 0,
        b.size() < b.modulus(),
    ensures
        inverse_tables(
            as_ints(b.forward_table()),
            as_ints(b.inverse_table()),
            b.size_inverse() as int,
            b.size(),
            b.modulus() as int,
        ),
{
    let q = b.q as nat;
    let qi = b.q as int;
    let n = b.psi_powers_bo@.len();
    let l = log2_floor(n);
    let fwd = as_ints(b.psi_powers_bo@);
    let inv = as_ints(b.psi_inv_powers_bo@);
    let psi_inv = pow(psi as int, (qi - 2) as nat) % qi;
    // psi * psi_inv == psi^(q-1) == 1
    lemma_fermat(psi as nat, q);
    lemma_pow_adds(psi as int, 1, (q - 2) as nat);
    lemma_pow1(psi as int);
    assert(1 + (q - 2) as nat == (q - 1) as nat);
    lemma_mul_mod_noop_general(psi as int, pow(psi as int, (qi - 2) as nat), qi);
    assert(((psi as int) * psi_inv) % qi == 1);
    assert forall|k: int| 1 <= k < n implies (#[trigger] fwd[k] * inv[k]) % qi == 1 by {
        let i = bit_reverse(k as nat, l);
        lemma_bit_reverse_bound(k as nat, l);
        lemma_bit_reverse_involution(k as nat, l);
        assert(b.psi_powers_bo@[bit_reverse(i, l) as int] as int == pow(psi as int, i) % qi);
        assert(b.psi_inv_powers_bo@[bit_reverse(i, l) as int] as int == pow(psi_inv, i) % qi);
        lemma_mul_mod_noop_general(pow(psi as int, i), pow(psi_inv, i), qi);
        lemma_pow_distributes(psi as int, psi_inv, i);
        lemma_pow_mod_noop((psi as int) * psi_inv, i, qi);
        lemma1_pow(i);
        lemma_small_mod(1, q);
    }
    // n * n_inv == n^(q-1) == 1
    lemma_small_mod(n, q);
    lemma_fermat(n, q);
    lemma_pow_adds(n as int, 1, (q - 2) as nat);
    lemma_pow1(n as int);
    lemma_mul_mod_noop_general(n as int, pow(n as int, (qi - 2) as nat), qi);
}

/// For a backend built from a root `psi` as [`NttBackendU64::_new`] builds one, for a prime
/// `q == 1 (mod 2n)`, the inverse transform gives back what went into the forward transform: if `fwd` is congruent to the
/// forward transform of `a` and `back` to the inverse transform of `fwd` (as the backend's
/// transforms guarantee), then `back` is congruent to `a`, and equal to it where both are
/// reduced.
pub proof fn lemma_backend_round_trip(
    b: NttBackendU64,
    psi: u64,
    a: Seq<u64>,
    fwd: Seq<u64>,
    back: Seq<u64>,
)
    requires
        is_prime(b.modulus() as nat),
        (b.modulus() as int) % (2 * b.size() as int) == 1,
        root_candidate(psi as int, b.modulus() as int, 2 * b.size() as int),
        b.built_from(b.modulus(), b.size(), psi),
        a.len() == b.size(),
        congruent(as_ints(fwd), ntt_spec(as_ints(a), as_ints(b.forward_table())), b.modulus() as int),
        congruent(
            as_ints(back),
            intt_spec(as_ints(fwd), as_ints(b.inverse_table()), b.size_inverse() as int),
            b.modulus() as int,
        ),
    ensures
        congruent(as_ints(back), as_ints(a), b.modulus() as int),
        all_below(a, b.modulus() as int) && all_below(back, b.modulus() as int) ==> back == a,
{
    lemma_small_mod(psi as nat, b.q as nat);
    lemma_size_below_modulus(b.q as int, b.psi_powers_bo@.len() as int);
    lemma_backend_tables_inverse(b, psi);
    lemma_ntt_round_trip(a, fwd, back, b.forward_table(), b.inverse_table(), b.size_inverse(), b.modulus());
}

/// For a prime `q == 1 (mod 2n)`, a nonzero candidate `2n`-th root of unity `psi` is
/// primitive: `psi^n == -1 (mod q)`.
pub proof fn lemma_root_candidate_negates(psi: int, q: int, n: int)
    requires
        n >= 1,
        is_prime(q as nat),
        q % (2 * n) == 1,
        root_candidate(psi, q, 2 * n),
    ensures
        (pow(psi, n as nat) + 1) % q == 0,
{
    let t = (q - 1) / (2 * n);
    lemma_fundamental_div_mod(q, 2 * n);
    assert(q == 2 * n * (q / (2 * n)) + 1);
    assert(q - 1 == (q / (2 * n)) * (2 * n) + 0) by (nonlinear_arith)
        requires
            q == 2 * n * (q / (2 * n)) + 1,
    ;
    lemma_fundamental_div_mod_converse(q - 1, 2 * n, q / (2 * n), 0);
    assert(t * (2 * n) == q - 1) by (nonlinear_arith)
        requires
            q == 2 * n * (q / (2 * n)) + 1,
            t == q / (2 * n),
    ;
    let s = choose|s: int| 0 <= s < q && psi == #[trigger] pow(s, t as nat) % q;
    assert(t >= 1) by {
        if t <= 0 {
            assert(t * (2 * n) <= 0) by (nonlinear_arith)
                requires
                    t <= 0,
                    n >= 1,
            ;
        }
    }
    if s == 0 {
        lemma0_pow(t as nat);
        assert(false);
    }
    lemma_small_mod(s as nat, q as nat);
    // psi^(2n) == s^(q-1) == 1
    lemma_pow_mod_noop(pow(s, t as nat), (2 * n) as nat, q);
    lemma_pow_multiplies(s, t as nat, (2 * n) as nat);
    assert((t * (2 * n)) as nat == (q - 1) as nat);
    lemma_fermat(s as nat, q as nat);
    assert(pow(psi, (2 * n) as nat) % q == 1);
    let pn = pow(psi, n as nat);
    let x = pn % q;
    lemma_pow_adds(psi, n as nat, n as nat);
    assert((n + n) as nat == (2 * n) as nat);
    lemma_mul_mod_noop_general(pn, pn, q);
    assert((x * x) % q == 1);
    assert(2 * n / 2 == n);
    assert(x != 1);
    lemma_mod_bound(pn, q);
    assert(x >= 1) by {
        if x == 0 {
            assert(x * x == 0) by (nonlinear_arith)
                requires
                    x == 0,
            ;
            assert(0int % q == 0);
        }
    }
    lemma_sub_mod_noop(x * x, 1, q);
    lemma_small_mod(1, q as nat);
    assert(((x * x) % q - 1int % q) % q == (x * x - 1) % q);
    assert(0int % q == 0);
    assert((x * x - 1) % q == 0);
    assert((x - 1) * (x + 1) == x * x - 1) by (nonlinear_arith);
    lemma_euclid((x - 1) as nat, (x + 1) as nat, q as nat);
    if (x - 1) % q == 0 {
        lemma_small_mod((x - 1) as nat, q as nat);
        assert(false);
    }
    lemma_add_mod_noop(pn, 1, q);
    lemma_add_mod_noop(x, 1, q);
    lemma_mod_twice(pn, q);
}

/// The forward table of a backend built from the root `psi` holds `psi^(bit_reverse(p))`
/// at each position `p`.
proof fn lemma_backend_root_table(b: NttBackendU64, psi: u64)
    requires
        b.tables_from_root(psi),
        b.modulus() > 0,
    ensures
        root_table(as_ints(b.forward_table()), psi as int, log2_floor(b.size()), b.modulus() as int),
{
    let n = b.psi_powers_bo@.len();
    let l = log2_floor(n);
    let qi = b.q as int;
    let fwd = as_ints(b.psi_powers_bo@);
    assert forall|p: int| 1 <= p < pow2(l) implies #[trigger] fwd[p] % qi == pow(
        psi as int,
        bit_reverse(p as nat, l),
    ) % qi by {
        let i = bit_reverse(p as nat, l);
        lemma_bit_reverse_bound(p as nat, l);
        lemma_bit_reverse_involution(p as nat, l);
        assert(b.psi_powers_bo@[bit_reverse(i, l) as int] as int == pow(psi as int, i) % qi);
        lemma_mod_twice(pow(psi as int, i), qi);
    }
}

/// For a backend built from a root `psi` as [`NttBackendU64::_new`] builds one, for a prime
/// `q == 1 (mod 2n)`, the transforms
/// multiply polynomials in `Z_q[X] / (X^n + 1)`: if `fa` and `fb` are congruent to the forward
/// transforms of `a` and `b`, `prod` to their element-wise product, and `back` to the inverse
/// transform of `prod`, then `back` is congruent to the negacyclic product of `a` and `b`.
pub proof fn lemma_backend_negacyclic(
    bk: NttBackendU64,
    psi: u64,
    a: Seq<u64>,
    b: Seq<u64>,
    fa: Seq<u64>,
    fb: Seq<u64>,
    prod: Seq<u64>,
    back: Seq<u64>,
)
    requires
        is_prime(bk.modulus() as nat),
        (bk.modulus() as int) % (2 * bk.size() as int) == 1,
        root_candidate(psi as int, bk.modulus() as int, 2 * bk.size() as int),
        bk.built_from(bk.modulus(), bk.size(), psi),
        a.len() == bk.size(),
        b.len() == bk.size(),
        congruent(as_ints(fa), ntt_spec(as_ints(a), as_ints(bk.forward_table())), bk.modulus() as int),
        congruent(as_ints(fb), ntt_spec(as_ints(b), as_ints(bk.forward_table())), bk.modulus() as int),
        prod.len() == bk.size(),
        forall|k: int|
            0 <= k < prod.len() ==> #[trigger] (prod[k] as int) % (bk.modulus() as int) == (fa[k] as int
                * fb[k] as int) % (bk.modulus() as int),
        congruent(
            as_ints(back),
            intt_spec(as_ints(prod), as_ints(bk.inverse_table()), bk.size_inverse() as int),
            bk.modulus() as int,
        ),
    ensures
        congruent(as_ints(back), negacyclic_mul(as_ints(a), as_ints(b)), bk.modulus() as int),
{
    let q = bk.q as int;
    let n = bk.psi_powers_bo@.len();
    let fwd = as_ints(bk.psi_powers_bo@);
    let ai = as_ints(a);
    let bi = as_ints(b);
    let c = negacyclic_mul(ai, bi);
    assert(n >= 1);
    assert(n < q) by {
        lemma_mod_bound(q, 2 * n as int);
        if q < 2 * n {
            lemma_small_mod(q as nat, (2 * n) as nat);
        }
    }
    lemma_root_candidate_negates(psi as int, q, n as int);
    lemma_backend_root_table(bk, psi);
    lemma_ntt_convolution(ai, bi, fwd, psi as int, q);
    lemma_ct_stages_len(ai, fwd, log2_floor(n), log2_floor(n));
    lemma_ct_stages_len(bi, fwd, log2_floor(n), log2_floor(n));
    lemma_ct_stages_len(c, fwd, log2_floor(n), log2_floor(n));
    // the element-wise product is congruent to the transform of the product
    assert(congruent(as_ints(prod), ntt_spec(c, fwd), q)) by {
        assert forall|k: int| 0 <= k < n implies #[trigger] as_ints(prod)[k] % q == ntt_spec(c, fwd)[k]
            % q by {
            assert(as_ints(fa)[k] % q == ntt_spec(ai, fwd)[k] % q);
            assert(as_ints(fb)[k] % q == ntt_spec(bi, fwd)[k] % q);
            lemma_congruent_mul(fa[k] as int, fb[k] as int, ntt_spec(ai, fwd)[k], ntt_spec(bi, fwd)[k], q);
            assert(prod[k] as int % q == (fa[k] as int * fb[k] as int) % q);
        }
    }
    lemma_small_mod(psi as nat, q as nat);
    lemma_backend_tables_inverse(bk, psi);
    lemma_intt_congruent(
        as_ints(prod),
        ntt_spec(c, fwd),
        as_ints(bk.psi_inv_powers_bo@),
        bk.n_inv as int,
        q,
    );
    lemma_intt_ntt(c, fwd, as_ints(bk.psi_inv_powers_bo@), bk.n_inv as int, q);
    lemma_congruent_trans(
        as_ints(back),
        intt_spec(as_ints(prod), as_ints(bk.psi_inv_powers_bo@), bk.n_inv as int),
        intt_spec(ntt_spec(c, fwd), as_ints(bk.psi_inv_powers_bo@), bk.n_inv as int),
        q,
    );
    lemma_congruent_trans(
        as_ints(back),
        intt_spec(ntt_spec(c, fwd), as_ints(bk.psi_inv_powers_bo@), bk.n_inv as int),
        c,
        q,
    );
}

/// `q == 1 (mod 2n)` with `n >= 1` puts `n` below `q`.
proof fn lemma_size_below_modulus(q: int, n: int)
    requires
        n >= 1,
        q > 1,
        q % (2 * n) == 1,
    ensures
        n < q,
{
    lemma_mod_bound(q, 2 * n);
    if q < 2 * n {
        lemma_small_mod(q as nat, (2 * n) as nat);
    }
}

/// Two backends built for the same modulus and size from the same root agree field for
/// field; so two backends that [`NttBackendU64::_new`] builds for the same `q` and `n` are
/// the same, and one inverts the transforms of the other.
pub proof fn lemma_backend_built_agree(b1: NttBackendU64, b2: NttBackendU64, q: u64, n: nat, psi: u64)
    requires
        b1.built_from(q, n, psi),
        b2.built_from(q, n, psi),
    ensures
        b1.parameters() == b2.parameters(),
{
    let l = log2_floor(n);
    assert forall|k: int| 0 <= k < n implies b1.psi_powers_bo@[k] == b2.psi_powers_bo@[k]
        && b1.psi_inv_powers_bo@[k] == b2.psi_inv_powers_bo@[k] by {
        let i = bit_reverse(k as nat, l);
        lemma_bit_reverse_bound(k as nat, l);
        lemma_bit_reverse_involution(k as nat, l);
        assert(b1.psi_powers_bo@[bit_reverse(i, l) as int] as int == b2.psi_powers_bo@[bit_reverse(
            i,
            l,
        ) as int] as int);
        assert(b1.psi_inv_powers_bo@[bit_reverse(i, l) as int] as int
            == b2.psi_inv_powers_bo@[bit_reverse(i, l) as int] as int);
    }
    assert(b1.psi_powers_bo@ =~= b2.psi_powers_bo@);
    assert(b1.psi_inv_powers_bo@ =~= b2.psi_inv_powers_bo@);
    assert(b1.psi_powers_bo_shoup@ =~= b2.psi_powers_bo_shoup@);
    assert(b1.psi_inv_powers_bo_shoup@ =~= b2.psi_inv_powers_bo_shoup@);
}

/// The forward transform of a backend built from a root `psi` as [`NttBackendU64::_new`]
/// builds one, for a prime `q == 1 (mod 2n)`, evaluates: position `k` holds, modulo `q`, the
/// input polynomial at `psi^(2 * bit_reverse(k) + 1)`.
pub proof fn lemma_backend_evaluation(b: NttBackendU64, psi: u64, a: Seq<u64>)
    requires
        is_prime(b.modulus() as nat),
        (b.modulus() as int) % (2 * b.size() as int) == 1,
        root_candidate(psi as int, b.modulus() as int, 2 * b.size() as int),
        b.built_from(b.modulus(), b.size(), psi),
        a.len() == b.size(),
    ensures
        forall|k: int|
            0 <= k < a.len() ==> #[trigger] ntt_spec(as_ints(a), as_ints(b.forward_table()))[k] % (
            b.modulus() as int) == evaluate(
                as_ints(a),
                pow(psi as int, 2 * bit_reverse(k as nat, log2_floor(a.len())) + 1),
            ) % (b.modulus() as int),
{
    let q = b.q as int;
    let n = b.psi_powers_bo@.len();
    let l = log2_floor(n);
    let ai = as_ints(a);
    let fwd = as_ints(b.psi_powers_bo@);
    lemma_root_candidate_negates(psi as int, q, n as int);
    lemma_backend_root_table(b, psi);
    lemma_ct_stages_eval(ai, fwd, psi as int, l, l, q);
    lemma2_to64();
    assert((l - l) as nat == 0);
    assert forall|k: int| 0 <= k < a.len() implies #[trigger] ntt_spec(ai, fwd)[k] % q == evaluate(
        ai,
        pow(psi as int, 2 * bit_reverse(k as nat, l) + 1),
    ) % q by {
        let kn = k as nat;
        let br = bit_reverse(kn, l);
        assert(pow2(0) * (2 * br + 1) == 2 * br + 1);
        assert(kn * pow2(0) + 0 == kn);
        assert(stage_value(ai, psi as int, l, l, kn, 0) == evaluate(ai, pow(psi as int, 2 * br + 1)));
    }
}

/// The candidate that word `index` of the stream of `seed` gives for an `n`-th root of unity
/// modulo `q`.
pub open spec fn word_candidate(seed: Seq<u8>, index: nat, q: u64, n: u64) -> Option<u64> {
    candidate(chacha8_word(seed, index), q, n)
}

/// A word is kept exactly when the power `(sample mod q)^((q-1)/n) mod q` that it gives is
/// nonzero and its `n / 2`-th power is not `1`, and then that power is the candidate; nothing
/// else (such as the sizes of `q` or `n`) enters.
pub proof fn lemma_candidate_exact(sample: u64, q: u64, n: u64)
    requires
        n >= 2,
        q % n == 1,
    ensures
        ({
            let w = pow((sample % q) as int, ((q as int - 1) / (n as int)) as nat) % (q as int);
            &&& (w != 0 && pow(w, (n / 2) as nat) % (q as int) != 1) ==> candidate(sample, q, n)
                == Some(w as u64)
            &&& (w == 0 || pow(w, (n / 2) as nat) % (q as int) == 1) ==> candidate(sample, q, n)
                is None
            &&& 0 <= w < q
        }),
{
    if q == 0 {
        assert(0u64 % n == 0);
    }
    let w = pow((sample % q) as int, ((q as int - 1) / (n as int)) as nat) % (q as int);
    lemma_mod_bound(pow((sample % q) as int, ((q as int - 1) / (n as int)) as nat), q as int);
    assert((w as u64) as int == w);
}

/// For a prime `q == 1 (mod n)`, every kept candidate is a primitive `n`-th root of unity:
/// `0 < w < q`, `w^n == 1` and `w^(n/2) != 1` modulo `q`.
pub proof fn lemma_candidate_primitive(sample: u64, q: u64, n: u64)
    requires
        n >= 2,
        n % 2 == 0,
        is_prime(q as nat),
        q % n == 1,
        candidate(sample, q, n) is Some,
    ensures
        ({
            let w = candidate(sample, q, n)->0 as int;
            &&& 0 < w < q
            &&& pow(w, n as nat) % (q as int) == 1
            &&& pow(w, (n / 2) as nat) % (q as int) != 1
        }),
{
    let qi = q as int;
    let ni = n as int;
    let t = (qi - 1) / ni;
    let s = (sample % q) as int;
    let w = pow(s, t as nat) % qi;
    lemma_candidate_exact(sample, q, n);
    assert(candidate(sample, q, n)->0 as int == w);
    lemma_fundamental_div_mod(qi, ni);
    assert(t * ni == qi - 1) by (nonlinear_arith)
        requires
            qi == ni * (qi / ni) + 1,
            t == (qi - 1) / ni,
            ni > 0,
    {
        lemma_fundamental_div_mod_converse(qi - 1, ni, qi / ni, 0);
    }
    assert(t >= 0) by {
        lemma_div_pos_is_pos(qi - 1, ni);
    }
    if s == 0 {
        if t == 0 {
            lemma_pow0(0);
            lemma_small_mod(1, q as nat);
            assert(w == 1);
            // w == 1, whose (n/2)-th power is 1
            lemma1_pow((n / 2) as nat);
            assert(pow(w, (n / 2) as nat) % qi == 1);
            assert(candidate(sample, q, n) is None);
        } else {
            lemma0_pow(t as nat);
            lemma_small_mod(0, q as nat);
            assert(w == 0);
            assert(candidate(sample, q, n) is None);
        }
    }
    lemma_small_mod(s as nat, q as nat);
    lemma_pow_mod_noop(pow(s, t as nat), n as nat, qi);
    lemma_pow_multiplies(s, t as nat, n as nat);
    assert((t * ni) as nat == (qi - 1) as nat);
    lemma_fermat(s as nat, q as nat);
}

/// The search keeps the first accepted word: it gives `None` exactly when none of the
/// `tries` words from `position` on is accepted, having then drawn all of them; and where
/// word `i` is the first accepted one, it gives that word's candidate, having drawn words up
/// to and including `i`.
pub proof fn lemma_root_search_first(seed: Seq<u8>, position: nat, tries: nat, q: u64, n: u64)
    ensures
        (root_search(seed, position, tries, q, n).0 is None) <==> (forall|i: nat|
            position <= i < position + tries ==> #[trigger] word_candidate(seed, i, q, n) is None),
        root_search(seed, position, tries, q, n).0 is None ==> root_search(seed, position, tries, q, n).1
            == position + tries,
        forall|i: nat|
            position <= i < position + tries && #[trigger] word_candidate(seed, i, q, n) is Some && (
            forall|j: nat| position <= j < i ==> #[trigger] word_candidate(seed, j, q, n) is None)
                ==> root_search(seed, position, tries, q, n) == (word_candidate(seed, i, q, n), i + 1),
    decreases tries,
{
    if tries > 0 {
        lemma_root_search_first(seed, position + 1, (tries - 1) as nat, q, n);
        let c0 = word_candidate(seed, position, q, n);
        if c0 is Some {
            assert forall|i: nat|
                position <= i < position + tries && #[trigger] word_candidate(seed, i, q, n) is Some
                    && (forall|j: nat|
                    position <= j < i ==> #[trigger] word_candidate(seed, j, q, n) is None) implies root_search(
                seed,
                position,
                tries,
                q,
                n,
            ) == (word_candidate(seed, i, q, n), i + 1) by {
                if i > position {
                    assert(word_candidate(seed, position, q, n) is None);
                }
            }
        } else {
            assert forall|i: nat|
                position <= i < position + tries && #[trigger] word_candidate(seed, i, q, n) is Some
                    && (forall|j: nat|
                    position <= j < i ==> #[trigger] word_candidate(seed, j, q, n) is None) implies root_search(
                seed,
                position,
                tries,
                q,
                n,
            ) == (word_candidate(seed, i, q, n), i + 1) by {
                assert(i != position);
                assert forall|j: nat| position + 1 <= j < i implies #[trigger] word_candidate(
                    seed,
                    j,
                    q,
                    n,
                ) is None by {}
            }
            if (forall|i: nat|
                position + 1 <= i < position + 1 + (tries - 1) as nat ==> #[trigger] word_candidate(
                    seed,
                    i,
                    q,
                    n,
                ) is None) {
                assert forall|i: nat| position <= i < position + tries implies #[trigger] word_candidate(
                    seed,
                    i,
                    q,
                    n,
                ) is None by {
                    if i > position {
                    }
                }
            }
        }
    }
}

/// The root that [`NttBackendU64::_new`] builds from, in terms of the words of the
/// zero-seeded stream: none where `q != 1 (mod 2n)`; otherwise none exactly when none of the
/// first hundred words is accepted as a `2n`-th root of unity, and else the candidate of the
/// first accepted word, for every modulus and every ring size.
pub proof fn lemma_seeded_root_first_word(q: u64, n: nat)
    requires
        n >= 1,
        2 * n <= u64::MAX,
    ensures
        (q as int) % (2 * n as int) != 1 ==> seeded_root(q, n) is None,
        (q as int) % (2 * n as int) == 1 ==> ((seeded_root(q, n) is None) <==> (forall|i: nat|
            i < 100 ==> #[trigger] word_candidate(zero_seed(), i, q, (2 * n) as u64) is None)),
        (q as int) % (2 * n as int) == 1 ==> forall|i: nat|
            i < 100 && #[trigger] word_candidate(zero_seed(), i, q, (2 * n) as u64) is Some && (forall|
                j: nat,
            | j < i ==> #[trigger] word_candidate(zero_seed(), j, q, (2 * n) as u64) is None)
                ==> seeded_root(q, n) == word_candidate(zero_seed(), i, q, (2 * n) as u64),
{
    lemma_root_search_first(zero_seed(), 0, 100, q, (2 * n) as u64);
    if (q as int) % (2 * n as int) == 1 {
        assert forall|i: nat|
            i < 100 && #[trigger] word_candidate(zero_seed(), i, q, (2 * n) as u64) is Some && (forall|
                j: nat,
            | j < i ==> #[trigger] word_candidate(zero_seed(), j, q, (2 * n) as u64) is None) implies seeded_root(
            q,
            n,
        ) == word_candidate(zero_seed(), i, q, (2 * n) as u64) by {
            assert(forall|j: nat| 0 <= j < i ==> #[trigger] word_candidate(zero_seed(), j, q, (2 * n) as u64) is None);
        }
    }
}

} // verus!

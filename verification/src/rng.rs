//! Small self-contained pseudo-random generators: a 64-bit linear congruential
//! generator seeded from the clock (`EpochRng`), a parameterised LCG (`LcgRng`)
//! and a xorshift generator (`XorShift`).
use std::time::{Duration, SystemTime};
use vstd::prelude::*;

verus! {

/// 2^64, the modulus of the machine's wrapping arithmetic on `u64`.
pub open spec fn two64() -> nat {
    0x1_0000_0000_0000_0000nat
}

/// One step of the generator behind `EpochRng`: `s * 6364136223846793005 + 1442695040888963407`
/// modulo 2^64.
pub open spec fn epoch_step(s: u64) -> u64 {
    ((s as nat * 6364136223846793005nat + 1442695040888963407nat) % two64()) as u64
}

/// One step of a linear congruential generator with multiplier `a`, increment `b`
/// and modulus `m`: `a * s + b` taken modulo 2^64 (wrapping), then modulo `m`.
pub open spec fn lcg_step(a: u64, b: u64, m: u64, s: u64) -> u64 {
    (((a as nat * s as nat + b as nat) % two64()) % (m as nat)) as u64
}

/// One step of the xorshift generator (shifts 13, 7, 17), shifts truncated to 64 bits.
pub open spec fn xorshift_step(s: u64) -> u64 {
    let x1 = s ^ (s << 13u64);
    let x2 = x1 ^ (x1 >> 7u64);
    x2 ^ (x2 << 17u64)
}

/// `(a * s) wrapping + b` is `(a * s + b) mod 2^64`.
proof fn lemma_wrapping_mul_add(a: u64, s: u64, b: u64)
    ensures
        vstd::wrapping::u64_specs::wrapping_add(vstd::wrapping::u64_specs::wrapping_mul(a, s), b)
            == ((a as nat * s as nat + b as nat) % two64()) as u64,
{
    let p: nat = a as nat * s as nat;
    let x: nat = p % two64();
    vstd::arithmetic::div_mod::lemma_add_mod_noop(p as int, b as int, two64() as int);
    vstd::arithmetic::div_mod::lemma_small_mod(b as nat, two64());
    vstd::arithmetic::div_mod::lemma_mod_bound(p as int, two64() as int);
    if x + b >= two64() {
        vstd::arithmetic::div_mod::lemma_small_mod((x + b - two64()) as nat, two64());
        vstd::arithmetic::div_mod::lemma_mod_add_multiples_vanish(
            x as int + b as int - two64() as int,
            two64() as int,
        );
    } else {
        vstd::arithmetic::div_mod::lemma_small_mod((x + b) as nat, two64());
    }
}

#[verifier::external_type_specification]
#[verifier::external_body]
pub struct ExSystemTime(SystemTime);

/// Calls `std::time::SystemTime::now`. Nothing is promised of the result: it is
/// the wall clock.
#[verifier::external_body]
fn clock_now() -> SystemTime {
    SystemTime::now()
}

/// Calls `SystemTime::duration_since` with `UNIX_EPOCH`: the time elapsed since
/// the epoch, or `None` (its error) when `t` is before the epoch. Nothing is
/// promised of the duration: it comes from the clock.
#[verifier::external_body]
fn duration_since_epoch(t: &SystemTime) -> Option<Duration> {
    match t.duration_since(std::time::UNIX_EPOCH) {
        Ok(d) => Some(d),
        Err(_) => None,
    }
}

/// Calls `Duration::as_nanos`: the whole nanoseconds of `d`. Nothing is
/// promised of the value, since nothing is known of `d`.
#[verifier::external_body]
fn duration_nanos(d: &Duration) -> u128 {
    d.as_nanos()
}

/// What the clock reads: the nanoseconds since the Unix epoch, or `None` when
/// it reads a time before the epoch.
fn clock_reading() -> Option<u128> {
    let t = clock_now();
    match duration_since_epoch(&t) {
        Some(d) => Some(duration_nanos(&d)),
        None => None,
    }
}

/// The seed a clock reading gives: the nanoseconds since the Unix epoch
/// reduced modulo 2^64, or 0 for a clock before the epoch (`None`).
pub fn seed_from_clock(nanos: Option<u128>) -> (s: u64)
    ensures
        s == match nanos {
            Some(n) => (n % 0x1_0000_0000_0000_0000u128) as u64,
            None => 0u64,
        },
{
    match nanos {
        Some(n) => (n % 0x1_0000_0000_0000_0000u128) as u64,
        None => 0,
    }
}

/// Calls `<[T]>::swap`: exchanges the elements at `i` and `j`, which must be in bounds.
#[verifier::external_body]
fn slice_swap<T>(s: &mut [T], i: usize, j: usize)
    requires
        i < old(s)@.len(),
        j < old(s)@.len(),
    ensures
        final(s)@ == old(s)@.update(i as int, old(s)@[j as int]).update(j as int, old(s)@[i as int]),
{
    s.swap(i, j)
}

/// The sequence and generator state after the Fisher-Yates passes for the
/// positions `i, i-1, .., 1`: at position `k` the generator steps once and the
/// element at `k` is exchanged with the one at `next mod (k + 1)`.
pub open spec fn shuffled<T>(s: Seq<T>, state: u64, i: int) -> (Seq<T>, u64)
    decreases i,
{
    if i < 1 {
        (s, state)
    } else {
        let st = epoch_step(state);
        let j = ((st as usize) % ((i + 1) as usize)) as int;
        shuffled(s.update(i, s[j]).update(j, s[i]), st, i - 1)
    }
}


/// Shuffling permutes: the result has the same length and the same multiset of
/// elements.
pub proof fn lemma_shuffled_permutes<T>(s: Seq<T>, state: u64, i: int)
    requires
        i < s.len() <= usize::MAX,
    ensures
        shuffled(s, state, i).0.len() == s.len(),
        shuffled(s, state, i).0.to_multiset() == s.to_multiset(),
    decreases i,
{
    if i >= 1 {
        let st = epoch_step(state);
        let j = ((st as usize) % ((i + 1) as usize)) as int;
        assert(0 <= j <= i);
        let t = s.update(i, s[j]).update(j, s[i]);
        lemma_shuffled_permutes(t, st, i - 1);
        vstd::seq_lib::to_multiset_update(s, i, s[j]);
        vstd::seq_lib::to_multiset_update(s.update(i, s[j]), j, s[i]);
        broadcast use vstd::multiset::group_multiset_axioms;
        if i == j {
            assert(t =~= s);
        } else {
            assert(s.update(i, s[j])[j] == s[j]);
            vstd::seq_lib::to_multiset_contains(s, s[i]);
            assert(s.contains(s[i]));
            assert(s.to_multiset().count(s[i]) > 0);
            let m = s.to_multiset();
            assert forall|x: T| #[trigger] t.to_multiset().count(x) == m.count(x) by {
                if x == s[i] && x == s[j] {
                } else if x == s[i] {
                } else if x == s[j] {
                } else {
                }
            }
            assert(t.to_multiset() =~= s.to_multiset());
        }
    }
}

/// Shuffling keeps distinct entries distinct, and entries within `lo..hi` within it.
pub proof fn lemma_shuffled_distinct(s: Seq<usize>, state: u64, i: int, lo: usize, hi: usize)
    requires
        i < s.len() <= usize::MAX,
        forall|k: int| 0 <= k < s.len() ==> lo <= #[trigger] s[k] < hi,
        forall|a: int, b: int| 0 <= a < b < s.len() ==> #[trigger] s[a] != #[trigger] s[b],
    ensures
        shuffled(s, state, i).0.len() == s.len(),
        forall|k: int|
            0 <= k < s.len() ==> lo <= #[trigger] shuffled(s, state, i).0[k] < hi,
        forall|a: int, b: int|
            0 <= a < b < s.len() ==> #[trigger] shuffled(s, state, i).0[a] != #[trigger] shuffled(
                s,
                state,
                i,
            ).0[b],
    decreases i,
{
    if i >= 1 {
        let st = epoch_step(state);
        let j = ((st as usize) % ((i + 1) as usize)) as int;
        assert(0 <= j <= i);
        let t = s.update(i, s[j]).update(j, s[i]);
        assert forall|k: int| 0 <= k < t.len() implies lo <= #[trigger] t[k] < hi by {
            if k == j {
            } else if k == i {
            } else {
                assert(t[k] == s[k]);
            }
        }
        assert forall|a: int, b: int| 0 <= a < b < t.len() implies #[trigger] t[a] != #[trigger] t[b] by {
            let fa = if a == j { i } else if a == i { j } else { a };
            let fb = if b == j { i } else if b == i { j } else { b };
            assert(t[a] == s[fa]);
            assert(t[b] == s[fb]);
            if fa < fb {
                assert(s[fa] != s[fb]);
            } else {
                assert(s[fb] != s[fa]);
            }
        }
        lemma_shuffled_distinct(t, st, i - 1, lo, hi);
    }
}

/// Generator with a 64-bit LCG state, seeded from the clock by `new`.
pub struct EpochRng {
    state: u64,
}

impl View for EpochRng {
    type V = u64;

    /// The generator's state.
    closed spec fn view(&self) -> u64 {
        self.state
    }
}

impl EpochRng {
    /// A generator seeded with `seed_from_clock` of what the clock reads. What
    /// the clock reads is not stated, so neither is the state.
    pub fn new() -> (r: Self) {
        let seed = seed_from_clock(clock_reading());
        Self::from_seed(seed)
    }

    /// A generator whose state is `seed`.
    pub fn from_seed(seed: u64) -> (r: Self)
        ensures
            r@ == seed,
    {
        Self { state: seed }
    }

    /// Advances the state by one LCG step and returns the new state.
    pub fn next_u64(&mut self) -> (r: u64)
        ensures
            r == epoch_step(old(self)@),
            final(self)@ == r,
    {
        proof {
            lemma_wrapping_mul_add(self.state, 6364136223846793005u64, 1442695040888963407u64);
            assert(self.state as nat * 6364136223846793005nat == 6364136223846793005nat
                * self.state as nat) by (nonlinear_arith);
        }
        self.state = self.state.wrapping_mul(6364136223846793005).wrapping_add(1442695040888963407);
        self.state
    }

    /// The upper 32 bits of the next 64-bit output.
    pub fn next_u32(&mut self) -> (r: u32)
        ensures
            r == (epoch_step(old(self)@) >> 32u64) as u32,
            final(self)@ == epoch_step(old(self)@),
    {
        let x = self.next_u64();
        (x >> 32u64) as u32
    }

    /// `low + next_u32() mod (high - low)`; defined for `low < high` only.
    pub fn gen_range_i32(&mut self, low: i32, high: i32) -> (r: i32)
        requires
            low < high,
            high - low <= i32::MAX,
        ensures
            r == low + ((epoch_step(old(self)@) >> 32u64) as u32 % ((high - low) as u32)) as i32,
            final(self)@ == epoch_step(old(self)@),
            low <= r < high,
    {
        let x = self.next_u32();
        let span: u32 = (high - low) as u32;
        let off: u32 = x % span;
        low + off as i32
    }

    /// `low + next_u64() mod (high - low)`; defined for `low < high` only.
    pub fn gen_range_usize(&mut self, low: usize, high: usize) -> (r: usize)
        requires
            low < high,
        ensures
            r == low + (epoch_step(old(self)@) as usize) % ((high - low) as usize),
            final(self)@ == epoch_step(old(self)@),
            low <= r < high,
    {
        let x = self.next_u64();
        low + (x as usize % (high - low))
    }

    /// Fisher-Yates shuffle driven by `gen_range_usize(0, i + 1)` for `i` from the
    /// last index down to 1.
    pub fn shuffle<T>(&mut self, slice: &mut [T])
        ensures
            final(slice)@ == shuffled(old(slice)@, old(self)@, old(slice)@.len() - 1).0,
            final(self)@ == shuffled(old(slice)@, old(self)@, old(slice)@.len() - 1).1,
    {
        let n = slice.len();
        if n == 0 {
            return;
        }
        let mut i: usize = n - 1;
        while i >= 1
            invariant
                i < n,
                n == slice@.len(),
                shuffled(slice@, self@, i as int) == shuffled(old(slice)@, old(self)@, n - 1),
            decreases i,
        {
            let j = self.gen_range_usize(0, i + 1);
            slice_swap(slice, i, j);
            i = i - 1;
        }
    }
}

impl Default for EpochRng {
    fn default() -> Self {
        Self::new()
    }
}

/// Linear congruential generator with parameters of the caller's choice.
pub struct LcgRng {
    state: u64,
    a: u64,
    b: u64,
    m: u64,
}

impl View for LcgRng {
    /// (state, multiplier, increment, modulus)
    type V = (u64, u64, u64, u64);

    closed spec fn view(&self) -> (u64, u64, u64, u64) {
        (self.state, self.a, self.b, self.m)
    }
}

impl LcgRng {
    /// A generator seeded with `seed_from_clock` of what the clock reads, with
    /// the parameters of `from_seed`. What the clock reads is not stated, so
    /// neither is the state.
    pub fn new() -> (r: Self)
        ensures
            r@.1 == 1103515245,
            r@.2 == 12345,
            r@.3 == 0x1_0000_0000u64,
    {
        let seed = seed_from_clock(clock_reading());
        Self::from_seed(seed)
    }

    /// The classic parameters `a = 1103515245`, `b = 12345`, `m = 2^32`.
    pub fn from_seed(seed: u64) -> (r: Self)
        ensures
            r@ == (seed, 1103515245u64, 12345u64, 0x1_0000_0000u64),
    {
        let m: u64 = 1u64 << 32u64;
        assert(m == 0x1_0000_0000u64) by (bit_vector)
            requires
                m == 1u64 << 32u64,
        ;
        Self { state: seed, a: 1103515245, b: 12345, m }
    }

    /// A generator with the given seed and parameters.
    pub fn with_params(seed: u64, a: u64, b: u64, m: u64) -> (r: Self)
        ensures
            r@ == (seed, a, b, m),
    {
        Self { state: seed, a, b, m }
    }

    /// The modulus `m`.
    pub fn modulus(&self) -> (r: u64)
        ensures
            r == self@.3,
    {
        self.m
    }

    /// `state = (a * state + b) mod m`, the product and sum wrapping at 2^64;
    /// returns the new state. The modulus must not be zero.
    pub fn next_u64(&mut self) -> (r: u64)
        requires
            old(self)@.3 != 0,
        ensures
            r == lcg_step(old(self)@.1, old(self)@.2, old(self)@.3, old(self)@.0),
            final(self)@ == (r, old(self)@.1, old(self)@.2, old(self)@.3),
    {
        proof {
            lemma_wrapping_mul_add(self.a, self.state, self.b);
        }
        self.state = (self.a.wrapping_mul(self.state).wrapping_add(self.b)) % self.m;
        self.state
    }

    /// The next output truncated to 32 bits.
    pub fn next_u32(&mut self) -> (r: u32)
        requires
            old(self)@.3 != 0,
        ensures
            r == lcg_step(old(self)@.1, old(self)@.2, old(self)@.3, old(self)@.0) as u32,
            final(self)@ == (
                lcg_step(old(self)@.1, old(self)@.2, old(self)@.3, old(self)@.0),
                old(self)@.1,
                old(self)@.2,
                old(self)@.3,
            ),
    {
        let x = self.next_u64();
        x as u32
    }

    /// `low + next_u32() mod (high - low)`; defined for `low < high` only.
    pub fn gen_range_i32(&mut self, low: i32, high: i32) -> (r: i32)
        requires
            old(self)@.3 != 0,
            low < high,
            high - low <= i32::MAX,
        ensures
            r == low + (lcg_step(old(self)@.1, old(self)@.2, old(self)@.3, old(self)@.0) as u32
                % ((high - low) as u32)) as i32,
            final(self)@ == (
                lcg_step(old(self)@.1, old(self)@.2, old(self)@.3, old(self)@.0),
                old(self)@.1,
                old(self)@.2,
                old(self)@.3,
            ),
            low <= r < high,
    {
        let x = self.next_u32();
        let span: u32 = (high - low) as u32;
        let off: u32 = x % span;
        low + off as i32
    }

    /// `low + next_u64() mod (high - low)`; defined for `low < high` only.
    pub fn gen_range_usize(&mut self, low: usize, high: usize) -> (r: usize)
        requires
            old(self)@.3 != 0,
            low < high,
        ensures
            r == low + (lcg_step(old(self)@.1, old(self)@.2, old(self)@.3, old(self)@.0) as usize)
                % ((high - low) as usize),
            final(self)@ == (
                lcg_step(old(self)@.1, old(self)@.2, old(self)@.3, old(self)@.0),
                old(self)@.1,
                old(self)@.2,
                old(self)@.3,
            ),
            low <= r < high,
    {
        let x = self.next_u64();
        low + (x as usize % (high - low))
    }
}

impl Default for LcgRng {
    fn default() -> Self {
        Self::new()
    }
}

/// Xorshift generator with a public 64-bit state.
pub struct XorShift {
    pub state: u64,
}

impl XorShift {
    /// A generator seeded with `seed`, or with 1 when `seed` is 0 (a zero state
    /// would stay zero forever).
    pub fn new(seed: u64) -> (r: Self)
        ensures
            r.state == (if seed == 0 { 1 } else { seed }),
    {
        Self { state: if seed == 0 { 1 } else { seed } }
    }

    /// Applies the three xorshift steps to the state and returns it.
    pub fn next(&mut self) -> (r: u64)
        ensures
            r == xorshift_step(old(self).state),
            final(self).state == r,
    {
        self.state = self.state ^ (self.state << 13u64);
        self.state = self.state ^ (self.state >> 7u64);
        self.state = self.state ^ (self.state << 17u64);
        self.state
    }

    /// A tabu tenure in `1..=max_val`: `1 + next() mod max_val`, or 1 without
    /// drawing when `max_val` is 0.
    pub fn rand_tenure(&mut self, max_val: u64) -> (r: usize)
        ensures
            max_val == 0 ==> r == 1 && final(self).state == old(self).state,
            max_val != 0 ==> r == (1 + xorshift_step(old(self).state) % max_val) as usize
                && final(self).state == xorshift_step(old(self).state),
    {
        if max_val == 0 {
            return 1;
        }
        let x = self.next();
        (1 + (x % max_val)) as usize
    }
}

} // verus!

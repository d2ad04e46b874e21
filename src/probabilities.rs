//! The MINSTD (Park–Miller) linear congruential generator and the
//! Fisher–Yates shuffle driven by it. The generator is predictable: it is not
//! for cryptography.
use vstd::prelude::*;

verus! {

broadcast use vstd::seq_lib::to_multiset_update;

/// The generator's modulus, `2^31 - 1`.
pub const MINSTD_MODULUS: u64 = 2147483647;

/// The generator's multiplier.
pub const MINSTD_MULTIPLIER: u64 = 16807;

/// The upper bound on draws in one `gen_range`; it exceeds the generator's
/// period, so an acceptable draw comes before it.
pub const MAX_DRAWS: u64 = 2147483647;

/// The state that follows `s`.
pub open spec fn minstd_next(s: u32) -> u32 {
    ((s as int * 16807) % 2147483647) as u32
}

/// The largest draw that `gen_range` accepts for a range of `size` values:
/// the largest multiple of `size` up to the modulus.
pub open spec fn max_accepted(size: u32) -> u32 {
    (size * (2147483647int / size as int)) as u32
}

/// The state after drawing from `s` until a draw is at most `limit`, or
/// `fuel` draws were made.
pub open spec fn draw_until(s: u32, limit: u32, fuel: nat) -> u32
    decreases fuel,
{
    let v = minstd_next(s);
    if v <= limit || fuel <= 1 {
        v
    } else {
        draw_until(v, limit, (fuel - 1) as nat)
    }
}

/// A linear congruential generator with multiplier 16807 modulo `2^31 - 1`.
pub struct MinstdRng {
    multiplier: u64,
    modulus: u64,
    state: u32,
}

impl View for MinstdRng {
    type V = u32;

    /// The current state.
    closed spec fn view(&self) -> u32 {
        self.state
    }
}

impl MinstdRng {
    #[verifier::type_invariant]
    spec fn constants(&self) -> bool {
        self.multiplier == MINSTD_MULTIPLIER && self.modulus == MINSTD_MODULUS
    }

    /// A generator whose state is `seed`.
    pub fn new(seed: u32) -> (r: MinstdRng)
        requires
            seed != 0,
        ensures
            r@ == seed,
    {
        MinstdRng { multiplier: MINSTD_MULTIPLIER, modulus: MINSTD_MODULUS, state: seed }
    }

    /// Advances the state and returns it: a number below `2^31 - 1`.
    pub fn gen(&mut self) -> (r: u32)
        ensures
            r == minstd_next(old(self)@),
            final(self)@ == r,
            r < MINSTD_MODULUS,
    {
        proof {
            use_type_invariant(&*self);
        }
        let new_state: u32 = (((self.state as u64) * self.multiplier) % self.modulus) as u32;
        self.state = new_state;
        new_state
    }

    /// A number in `range`: draws until a draw is at most the largest
    /// multiple of the range's size up to the modulus, so that every value is
    /// equally likely, and maps that draw into the range.
    pub fn gen_range(&mut self, range: std::ops::Range<usize>) -> (r: u32)
        requires
            range.start < range.end <= u32::MAX,
        ensures
            final(self)@ == draw_until(
                old(self)@,
                max_accepted((range.end - range.start) as u32),
                MAX_DRAWS as nat,
            ),
            r == range.start + (final(self)@ as int) % ((range.end - range.start) as int),
            range.start <= r < range.end,
    {
        let range_start: u32 = range.start as u32;
        let range_end: u32 = range.end as u32;
        let range_size: u32 = range_end - range_start;
        proof {
            assert(range_size * (2147483647int / range_size as int) <= 2147483647) by (nonlinear_arith)
                requires
                    range_size >= 1,
            ;
            assert(0 <= range_size * (2147483647int / range_size as int)) by (nonlinear_arith)
                requires
                    range_size >= 1,
            ;
        }
        let max_accepted_without_reject: u32 = range_size * (2147483647u32 / range_size);
        let ghost s0 = self@;
        let mut rng_val: u32 = self.gen();
        let mut draws: u64 = 1;
        while rng_val > max_accepted_without_reject && draws < MAX_DRAWS
            invariant
                1 <= draws <= MAX_DRAWS,
                max_accepted_without_reject == max_accepted(range_size),
                rng_val == self@,
                draw_until(s0, max_accepted(range_size), MAX_DRAWS as nat) == if rng_val
                    <= max_accepted(range_size) || draws >= MAX_DRAWS {
                    rng_val
                } else {
                    draw_until(rng_val, max_accepted(range_size), (MAX_DRAWS - draws) as nat)
                },
            decreases MAX_DRAWS - draws,
        {
            rng_val = self.gen();
            draws = draws + 1;
        }
        range_start + (rng_val % range_size)
    }
}

/// The slice after the Fisher–Yates passes over positions `i` down to 0,
/// starting from generator state `s`: position `i` is swapped with the one
/// that `gen_range(0..i + 1)` picks.
pub open spec fn shuffled(a: Seq<i32>, s: u32, i: int) -> Seq<i32>
    decreases i + 1,
{
    if i < 0 || i >= a.len() {
        a
    } else {
        let s2 = draw_until(s, max_accepted((i + 1) as u32), MAX_DRAWS as nat);
        let j = (s2 as int) % (i + 1);
        shuffled(a.update(i, a[j]).update(j, a[i]), s2, i - 1)
    }
}

/// Swapping two elements keeps the elements.
pub proof fn lemma_swap_keeps_elements(a: Seq<i32>, i: int, j: int)
    requires
        0 <= i < a.len(),
        0 <= j < a.len(),
    ensures
        a.update(i, a[j]).update(j, a[i]).to_multiset() == a.to_multiset(),
{
    broadcast use vstd::multiset::group_multiset_axioms;

    let b = a.update(i, a[j]);
    assert(b[j] == a[j]) by {
        if i == j {
        }
    }
    let m = a.to_multiset();
    vstd::seq_lib::to_multiset_contains(a, a[i]);
    vstd::seq_lib::to_multiset_contains(a, a[j]);
    assert(a.contains(a[i]) && a.contains(a[j]));
    assert(b.to_multiset() == m.insert(a[j]).remove(a[i]));
    assert(b.update(j, a[i]).to_multiset() == b.to_multiset().insert(a[i]).remove(a[j]));
    assert(b.update(j, a[i]).to_multiset() =~= a.to_multiset());
}

/// Shuffling keeps the elements.
pub proof fn lemma_shuffle_permutes(a: Seq<i32>, s: u32, i: int)
    ensures
        shuffled(a, s, i).to_multiset() == a.to_multiset(),
        shuffled(a, s, i).len() == a.len(),
    decreases i + 1,
{
    if 0 <= i < a.len() {
        let s2 = draw_until(s, max_accepted((i + 1) as u32), MAX_DRAWS as nat);
        let j = (s2 as int) % (i + 1);
        lemma_swap_keeps_elements(a, i, j);
        lemma_shuffle_permutes(a.update(i, a[j]).update(j, a[i]), s2, i - 1);
    }
}

/// Shuffles `array` in place by Fisher–Yates with a generator seeded by `seed`.
pub fn fisher_yates_shuffle(array: &mut [i32], seed: u32)
    requires
        seed != 0,
        old(array)@.len() <= u32::MAX,
    ensures
        final(array)@ == shuffled(old(array)@, seed, old(array)@.len() - 1),
        final(array)@.to_multiset() == old(array)@.to_multiset(),
{
    proof {
        lemma_shuffle_permutes(array@, seed, array@.len() - 1);
    }
    let ghost goal = shuffled(array@, seed, array@.len() - 1);
    let mut rng: MinstdRng = MinstdRng::new(seed);
    let n: usize = array.len();
    let mut k: usize = n;
    while k > 0
        invariant
            k <= n == array@.len() <= u32::MAX,
            shuffled(array@, rng@, k - 1) == goal,
        decreases k,
    {
        let i = k - 1;
        let j: usize = rng.gen_range(0..(i + 1)) as usize;
        let t = array[i];
        array[i] = array[j];
        array[j] = t;
        k = k - 1;
    }
    proof {
        assert(array@ == goal);
    }
}

} // verus!

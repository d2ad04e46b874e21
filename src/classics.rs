//! Factorial, greatest common divisor and Fibonacci numbers.
use vstd::prelude::*;
use vstd::std_specs::cmp::PartialEqSpec;

verus! {

/// `n!`, with `0! == 1`.
pub open spec fn spec_factorial(n: nat) -> nat
    decreases n,
{
    if n <= 1 {
        1
    } else {
        n * spec_factorial((n - 1) as nat)
    }
}

/// The greatest common divisor by Euclid's algorithm.
pub open spec fn spec_gcd(a: nat, b: nat) -> nat
    decreases b,
{
    if b == 0 {
        a
    } else {
        spec_gcd(b, a % b)
    }
}

/// The `n`-th Fibonacci number, with `fib(0) == 0` and `fib(1) == 1`.
pub open spec fn spec_fibonacci(n: nat) -> nat
    decreases n,
{
    if n == 0 {
        0
    } else if n == 1 {
        1
    } else {
        spec_fibonacci((n - 1) as nat) + spec_fibonacci((n - 2) as nat)
    }
}

/// Fibonacci numbers do not decrease.
pub proof fn lemma_fibonacci_monotone(i: nat, j: nat)
    requires
        i <= j,
    ensures
        spec_fibonacci(i) <= spec_fibonacci(j),
    decreases j,
{
    if i < j {
        lemma_fibonacci_monotone(i, (j - 1) as nat);
        if j >= 2 {
            assert(spec_fibonacci(j) == spec_fibonacci((j - 1) as nat) + spec_fibonacci((j - 2) as nat));
        }
    }
}

/// `n!`, computed recursively.
pub fn factorial(n: u64) -> (r: u64)
    requires
        spec_factorial(n as nat) <= u64::MAX,
    ensures
        r == spec_factorial(n as nat),
    decreases n,
{
    if n <= 1 {
        1
    } else {
        proof {
            assert(spec_factorial((n - 1) as nat) <= spec_factorial(n as nat)) by (nonlinear_arith)
                requires
                    spec_factorial(n as nat) == n * spec_factorial((n - 1) as nat),
                    n >= 2,
            ;
        }
        let f = factorial(n - 1);
        n * f
    }
}

/// The greatest common divisor of `a` and `b`, by Euclid's algorithm.
pub fn gcd(a: u64, b: u64) -> (r: u64)
    ensures
        r == spec_gcd(a as nat, b as nat),
{
    let ghost (a0, b0) = (a, b);
    let mut a = a;
    let mut b = b;
    while b != 0
        invariant
            spec_gcd(a as nat, b as nat) == spec_gcd(a0 as nat, b0 as nat),
        decreases b,
    {
        let temp = b;
        b = a % b;
        a = temp;
    }
    a
}

/// The `n`-th Fibonacci number, computed by iteration.
pub fn fibonacci_iterative(n: u64) -> (r: u64)
    requires
        spec_fibonacci(n as nat) <= u64::MAX,
    ensures
        r == spec_fibonacci(n as nat),
{
    if n == 0 {
        return 0;
    }
    let mut prev: u64 = 0;
    let mut curr: u64 = 1;
    let mut i: u64 = 1;
    while i < n
        invariant
            1 <= i <= n,
            spec_fibonacci(n as nat) <= u64::MAX,
            prev == spec_fibonacci((i - 1) as nat),
            curr == spec_fibonacci(i as nat),
        decreases n - i,
    {
        proof {
            lemma_fibonacci_monotone((i + 1) as nat, n as nat);
        }
        let next = prev + curr;
        prev = curr;
        curr = next;
        i = i + 1;
    }
    curr
}

/// The `n`-th Fibonacci number, computed by the defining recursion.
pub fn fibonacci_recursive(n: u64) -> (r: u64)
    requires
        spec_fibonacci(n as nat) <= u64::MAX,
    ensures
        r == spec_fibonacci(n as nat),
    decreases n,
{
    if n == 0 {
        0
    } else if n == 1 {
        1
    } else {
        proof {
            lemma_fibonacci_monotone((n - 1) as nat, n as nat);
            lemma_fibonacci_monotone((n - 2) as nat, n as nat);
        }
        fibonacci_recursive(n - 1) + fibonacci_recursive(n - 2)
    }
}


/// The first index at which `slice` holds `target`.
pub fn linear_search(slice: &[i32], target: i32) -> (r: Option<usize>)
    ensures
        match r {
            Some(i) => i < slice@.len() && slice@[i as int] == target && forall|k: int|
                0 <= k < i ==> slice@[k] != target,
            None => forall|k: int| 0 <= k < slice@.len() ==> slice@[k] != target,
        },
{
    let mut i: usize = 0;
    while i < slice.len()
        invariant
            i <= slice@.len(),
            forall|k: int| 0 <= k < i ==> slice@[k] != target,
        decreases slice@.len() - i,
    {
        if slice[i] == target {
            return Some(i);
        }
        i = i + 1;
    }
    None
}

/// The first index at which `slice` holds a value equal to `target`.
pub fn generic_linear_search<T: PartialEq>(slice: &[T], target: T) -> (r: Option<usize>)
    requires
        T::obeys_eq_spec(),
    ensures
        match r {
            Some(i) => i < slice@.len() && slice@[i as int].eq_spec(&target) && forall|k: int|
                0 <= k < i ==> !slice@[k].eq_spec(&target),
            None => forall|k: int| 0 <= k < slice@.len() ==> !slice@[k].eq_spec(&target),
        },
{
    let mut i: usize = 0;
    while i < slice.len()
        invariant
            i <= slice@.len(),
            T::obeys_eq_spec(),
            forall|k: int| 0 <= k < i ==> !slice@[k].eq_spec(&target),
        decreases slice@.len() - i,
    {
        if slice[i] == target {
            return Some(i);
        }
        i = i + 1;
    }
    None
}

/// Searches the sorted `slice` between `min_index` and `max_index_inclusive`
/// (the whole slice where they are `None`) for `target` by halving.
pub fn binary_search(
    slice: &[i32],
    target: i32,
    min_index: Option<usize>,
    max_index_inclusive: Option<usize>,
) -> (r: Option<usize>)
    requires
        crate::sorting::is_sorted(slice@),
        slice@.len() > 0,
        match max_index_inclusive {
            Some(m) => m < slice@.len(),
            None => true,
        },
    ensures
        ({
            let lo = match min_index {
                Some(m) => m as int,
                None => 0,
            };
            let hi = match max_index_inclusive {
                Some(m) => m as int,
                None => slice@.len() - 1,
            };
            match r {
                Some(i) => lo <= i <= hi && slice@[i as int] == target,
                None => forall|k: int| lo <= k <= hi ==> slice@[k] != target,
            }
        }),
    decreases
            match max_index_inclusive {
                Some(m) => m as int,
                None => slice@.len() - 1,
            } - match min_index {
                Some(m) => m as int,
                None => 0,
            },
{
    let n = slice.len();
    let min_index = match min_index {
        Some(m) => m,
        None => 0,
    };
    let max_index_inclusive = match max_index_inclusive {
        Some(m) => m,
        None => n - 1,
    };
    if min_index > max_index_inclusive {
        return None;
    }
    if min_index == max_index_inclusive {
        return if slice[min_index] == target {
            Some(min_index)
        } else {
            None
        };
    }
    if max_index_inclusive == min_index + 1 {
        if slice[min_index] == target {
            return Some(min_index);
        }
        if slice[max_index_inclusive] == target {
            return Some(max_index_inclusive);
        }
        return None;
    }
    let mid_index = min_index + (max_index_inclusive - min_index) / 2;
    let mid_value = slice[mid_index];
    if target > mid_value {
        binary_search(slice, target, Some(mid_index), Some(max_index_inclusive))
    } else {
        binary_search(slice, target, Some(min_index), Some(mid_index))
    }
}


/// Each element is larger than those after it.
pub open spec fn is_decreasing(s: Seq<u32>) -> bool {
    forall|i: int, j: int| 0 <= i < j < s.len() ==> s[i] > s[j]
}

/// The disks `n, n - 1, ..., 1`, from the bottom up.
pub open spec fn disk_stack(n: nat) -> Seq<u32> {
    Seq::new(n, |i: int| (n - i) as u32)
}

/// The top of a stack, if it has one.
pub fn top<T: Copy>(slice: &[T]) -> (r: Option<T>)
    ensures
        r == if slice@.len() == 0 {
            None
        } else {
            Some(slice@.last())
        },
{
    if slice.len() == 0 {
        None
    } else {
        Some(slice[slice.len() - 1])
    }
}

/// A game of the Tower of Hanoi: three towers of disks, listed from the
/// bottom up, and the moves made so far.
pub struct HanoiGame {
    towers: [Vec<u32>; 3],
    verbose: bool,
    moves: Vec<(usize, usize)>,
}

impl HanoiGame {
    /// The disks of tower `k` (counting from 0), from the bottom up.
    pub closed spec fn tower(&self, k: int) -> Seq<u32> {
        self.towers@[k]@
    }

    /// The moves made so far, as `(source, destination)` towers counted from 1.
    pub closed spec fn spec_moves(&self) -> Seq<(usize, usize)> {
        self.moves@
    }

    /// Whether each state is to be shown after each move.
    pub closed spec fn spec_verbose(&self) -> bool {
        self.verbose
    }

    /// A game with the disks `n` down to 1 on the first tower.
    pub fn new(n: u32, verbose: bool) -> (r: HanoiGame)
        ensures
            r.tower(0) == disk_stack(n as nat),
            r.tower(1) == Seq::<u32>::empty(),
            r.tower(2) == Seq::<u32>::empty(),
            r.spec_moves() == Seq::<(usize, usize)>::empty(),
            r.spec_verbose() == verbose,
    {
        let mut first: Vec<u32> = Vec::new();
        let mut d: u32 = n;
        while d > 0
            invariant
                d <= n,
                first@ =~= disk_stack(n as nat).subrange(0, (n - d) as int),
            decreases d,
        {
            first.push(d);
            proof {
                assert(first@ =~= disk_stack(n as nat).subrange(0, (n - d + 1) as int));
            }
            d = d - 1;
        }
        proof {
            assert(disk_stack(n as nat).subrange(0, n as int) =~= disk_stack(n as nat));
        }
        HanoiGame { towers: [first, Vec::new(), Vec::new()], verbose, moves: Vec::new() }
    }

    /// The disks of tower `k` (counting from 0), from the bottom up.
    pub fn towers(&self) -> (r: [Vec<u32>; 3])
        ensures
            forall|k: int| 0 <= k < 3 ==> (#[trigger] r@[k])@ == self.tower(k),
    {
        [self.towers[0].clone(), self.towers[1].clone(), self.towers[2].clone()]
    }

    /// The moves made so far, as `(source, destination)` towers counted from 1.
    pub fn moves(&self) -> (r: Vec<(usize, usize)>)
        ensures
            r@ == self.spec_moves(),
    {
        let mut out: Vec<(usize, usize)> = Vec::new();
        let mut i: usize = 0;
        while i < self.moves.len()
            invariant
                i <= self.moves@.len(),
                out@ == self.moves@.subrange(0, i as int),
            decreases self.moves@.len() - i,
        {
            out.push(self.moves[i]);
            proof {
                assert(out@ =~= self.moves@.subrange(0, i + 1));
            }
            i = i + 1;
        }
        proof {
            assert(self.moves@.subrange(0, i as int) =~= self.moves@);
        }
        out
    }

    /// Whether each state is to be shown after each move.
    pub fn verbose(&self) -> (r: bool)
        ensures
            r == self.spec_verbose(),
    {
        self.verbose
    }

    /// Moves the top disk of tower `src` onto tower `dest` (towers counted
    /// from 1); the disk below it on `dest`, if any, must be no smaller.
    pub fn move_disk(&mut self, src: usize, dest: usize)
        requires
            1 <= src <= 3,
            1 <= dest <= 3,
            old(self).tower(src - 1).len() > 0,
            old(self).tower(dest - 1).len() > 0 ==> old(self).tower(dest - 1).last() >= old(
                self,
            ).tower(src - 1).last(),
        ensures
            ({
                let disk = old(self).tower(src - 1).last();
                let popped = old(self).tower(src - 1).drop_last();
                forall|k: int|
                    0 <= k < 3 ==> #[trigger] final(self).tower(k) == if k == dest - 1 {
                        if k == src - 1 {
                            popped.push(disk)
                        } else {
                            old(self).tower(k).push(disk)
                        }
                    } else if k == src - 1 {
                        popped
                    } else {
                        old(self).tower(k)
                    }
            }),
            final(self).spec_moves() == old(self).spec_moves().push((src, dest)),
            final(self).spec_verbose() == old(self).spec_verbose(),
    {
        let disk = self.towers[src - 1].pop().unwrap();
        self.towers[dest - 1].push(disk);
        self.moves.push((src, dest));
    }
}

/// Moves the top `n` disks of tower `src` onto tower `dest` (towers counted
/// from 1) through the third tower, one legal move at a time.
pub fn move_tower_recursive(hanoi: &mut HanoiGame, src: usize, dest: usize, n: u32)
    requires
        1 <= src <= 3,
        1 <= dest <= 3,
        n >= 2 ==> src != dest,
        n == 1 || src != dest,
        old(hanoi).tower(src - 1).len() >= n,
        forall|k: int| 0 <= k < 3 ==> is_decreasing(#[trigger] old(hanoi).tower(k)),
        n > 0 ==> forall|k: int, i: int|
            0 <= k < 3 && k != src - 1 && (n >= 2 || k == dest - 1) && 0 <= i < old(hanoi).tower(k).len() ==> #[trigger] old(
                hanoi,
            ).tower(k)[i] > old(hanoi).tower(src - 1)[old(hanoi).tower(src - 1).len() - n],
    ensures
        ({
            let s = old(hanoi).tower(src - 1);
            let block = s.subrange(s.len() - n, s.len() as int);
            forall|k: int|
                0 <= k < 3 ==> #[trigger] final(hanoi).tower(k) == if n == 0 || src == dest {
                    old(hanoi).tower(k)
                } else if k == src - 1 {
                    s.subrange(0, s.len() - n)
                } else if k == dest - 1 {
                    old(hanoi).tower(k) + block
                } else {
                    old(hanoi).tower(k)
                }
        }),
        forall|k: int| 0 <= k < 3 ==> is_decreasing(#[trigger] final(hanoi).tower(k)),
        final(hanoi).spec_verbose() == old(hanoi).spec_verbose(),
    decreases n,
{
    if n == 0 {
    } else if n == 1 {
        proof {
            let s = hanoi.tower(src - 1);
            assert(s.subrange(s.len() - 1, s.len() as int) =~= seq![s.last()]);
            assert(s.drop_last() =~= s.subrange(0, s.len() - 1));
            if hanoi.tower(dest - 1).len() > 0 && src != dest {
                assert(hanoi.tower(dest - 1)[hanoi.tower(dest - 1).len() - 1] > s[s.len() - 1]);
            }
        }
        let ghost old_h = *hanoi;
        hanoi.move_disk(src, dest);
        proof {
            let s = old_h.tower(src - 1);
            if src != dest {
                assert(old_h.tower(dest - 1).push(s.last()) =~= old_h.tower(dest - 1) + s.subrange(
                    s.len() - 1,
                    s.len() as int,
                ));
            }
            assert forall|k: int| 0 <= k < 3 implies is_decreasing(#[trigger] hanoi.tower(k)) by {
                let t = hanoi.tower(k);
                assert(old_h.tower(k) == old_h.tower(k));
                if k == dest - 1 && src != dest {
                    assert forall|i: int, j: int| 0 <= i < j < t.len() implies t[i] > t[j] by {
                        if j == t.len() - 1 && i < j {
                            assert(old_h.tower(k)[i] > old_h.tower(src - 1)[old_h.tower(src - 1).len() - 1]);
                        }
                    }
                }
                if k == src - 1 && src == dest {
                    assert(t =~= old_h.tower(k));
                }
            }
            if src == dest {
                let s = old_h.tower(src - 1);
                assert(s.drop_last().push(s.last()) =~= s);
                assert(s.subrange(0, s.len() - 1) + s.subrange(s.len() - 1, s.len() as int) =~= s);
            }
        }
    } else {
        let aux_tower = 6 - src - dest;
        let ghost h0 = *hanoi;
        let ghost s = h0.tower(src - 1);
        let ghost len = s.len();
        proof {
            assert(is_decreasing(h0.tower(src - 1)));
            assert forall|k: int, i: int|
                0 <= k < 3 && k != src - 1 && (n - 1 >= 2 || k == aux_tower - 1) && 0 <= i < h0.tower(k).len() implies #[trigger] h0.tower(k)[i]
                > s[len - (n - 1)] by {
                assert(s[len - n] > s[len - (n - 1)]);
            }
        }
        move_tower_recursive(hanoi, src, aux_tower, n - 1);
        let ghost h1 = *hanoi;
        proof {
            assert(is_decreasing(h0.tower(src - 1)));
            assert(h1.tower(dest - 1) == h0.tower(dest - 1));
            assert(h1.tower(src - 1) == s.subrange(0, len - (n - 1)));
            assert(h1.tower(src - 1).len() >= 1);
            assert forall|k: int, i: int|
                0 <= k < 3 && k != src - 1 && (1 >= 2 || k == dest - 1) && 0 <= i < h1.tower(k).len() implies #[trigger] h1.tower(k)[i]
                > h1.tower(src - 1)[h1.tower(src - 1).len() - 1] by {
                assert(h1.tower(src - 1)[h1.tower(src - 1).len() - 1] == s[len - n]);
                assert(h1.tower(k) == h0.tower(k));
                assert(h0.tower(k)[i] > s[len - n]);
            }
        }
        move_tower_recursive(hanoi, src, dest, 1);
        let ghost h2 = *hanoi;
        proof {
            assert(h2.tower(aux_tower - 1) == h0.tower(aux_tower - 1) + s.subrange(len - (n - 1), len as int));
            assert(h2.tower(aux_tower - 1).len() >= n - 1);
            assert forall|k: int, i: int|
                0 <= k < 3 && k != aux_tower - 1 && (n - 1 >= 2 || k == dest - 1) && 0 <= i < h2.tower(k).len() implies #[trigger] h2.tower(
                k,
            )[i] > h2.tower(aux_tower - 1)[h2.tower(aux_tower - 1).len() - (n - 1)] by {
                let a0 = h0.tower(aux_tower - 1).len();
                assert(h2.tower(aux_tower - 1)[h2.tower(aux_tower - 1).len() - (n - 1)] == s[len - (n - 1)]);
                if k == src - 1 {
                    assert(h2.tower(k)[i] == s[i]);
                    assert(s[i] > s[len - (n - 1)]);
                } else {
                    let d0 = h0.tower(k).len();
                    if i < d0 {
                        assert(h2.tower(k)[i] == h0.tower(k)[i]);
                        assert(h0.tower(k)[i] > s[len - n]);
                        assert(s[len - n] > s[len - (n - 1)]);
                    } else {
                        assert(h2.tower(k)[i] == s[len - n]);
                        assert(s[len - n] > s[len - (n - 1)]);
                    }
                }
            }
        }
        move_tower_recursive(hanoi, aux_tower, dest, n - 1);
        proof {
            assert forall|k: int| 0 <= k < 3 implies #[trigger] hanoi.tower(k) == if k == src - 1 {
                s.subrange(0, len - n)
            } else if k == dest - 1 {
                h0.tower(k) + s.subrange(len - n, len as int)
            } else {
                h0.tower(k)
            } by {
                if k == src - 1 {
                    assert(h1.tower(k).subrange(0, h1.tower(k).len() - 1) =~= s.subrange(0, len - n));
                } else if k == dest - 1 {
                    assert(h2.tower(k) == h0.tower(k) + h1.tower(src - 1).subrange(
                        h1.tower(src - 1).len() - 1,
                        h1.tower(src - 1).len() as int,
                    ));
                    assert(h1.tower(src - 1).subrange(h1.tower(src - 1).len() - 1, h1.tower(src - 1).len() as int)
                        =~= s.subrange(len - n, len - (n - 1)));
                    let a2 = h2.tower(aux_tower - 1);
                    assert(a2.subrange(a2.len() - (n - 1), a2.len() as int) =~= s.subrange(
                        len - (n - 1),
                        len as int,
                    ));
                    assert(h0.tower(k) + s.subrange(len - n, len - (n - 1)) + s.subrange(len - (n - 1), len as int)
                        =~= h0.tower(k) + s.subrange(len - n, len as int));
                } else {
                    let a2 = h2.tower(k);
                    assert(a2.subrange(0, a2.len() - (n - 1)) =~= h0.tower(k));
                }
            }
        }
    }
}


/// Plays the Tower of Hanoi with `n` disks: at the end all of them are on
/// the third tower, and the game holds the moves made.
pub fn solve_tower_of_hanoi(n: u32, verbose: bool) -> (r: HanoiGame)
    ensures
        r.tower(0) == Seq::<u32>::empty(),
        r.tower(1) == Seq::<u32>::empty(),
        r.tower(2) == disk_stack(n as nat),
        r.spec_verbose() == verbose,
{
    let mut hanoi = HanoiGame::new(n, verbose);
    let ghost h0 = hanoi;
    proof {
        assert forall|k: int| 0 <= k < 3 implies is_decreasing(#[trigger] hanoi.tower(k)) by {
            if k == 0 {
                assert(hanoi.tower(0) == disk_stack(n as nat));
            }
        }
    }
    move_tower_recursive(&mut hanoi, 1, 3, n);
    proof {
        assert(hanoi.tower(0) == h0.tower(0).subrange(0, 0) || n == 0);
        assert(hanoi.tower(0) =~= Seq::<u32>::empty());
        assert(hanoi.tower(2) =~= disk_stack(n as nat)) by {
            assert(h0.tower(0).subrange(0, n as int) =~= h0.tower(0));
        }
    }
    hanoi
}

} // verus!

//! The Collatz sequence, primes by trial division, and the symmetries of
//! eight-queens solutions.
use vstd::prelude::*;

verus! {

/// One step of the Collatz sequence.
pub open spec fn collatz_step(c: int) -> int {
    if c % 2 == 0 {
        c / 2
    } else {
        3 * c + 1
    }
}

/// The `k`-th term of the Collatz sequence that starts at `n`.
pub open spec fn collatz_term(n: int, k: nat) -> int
    decreases k,
{
    if k == 0 {
        n
    } else {
        collatz_step(collatz_term(n, (k - 1) as nat))
    }
}

/// The sequence from `n` reaches 1 at step `k`, with `k` and every term up to
/// it no greater than `u64::MAX`.
pub open spec fn reaches_one_at(n: int, k: nat) -> bool {
    k <= u64::MAX && collatz_term(n, k) == 1 && forall|j: nat| j <= k ==> #[trigger] collatz_term(n, j) <= u64::MAX
}

/// The sequence from `n` reaches 1 within `u64::MAX` steps, without passing
/// `u64::MAX`.
pub open spec fn reaches_one(n: int) -> bool {
    exists|k: nat| reaches_one_at(n, k)
}

/// `t` is the flight time of `n`: the first step at which its sequence is 1.
pub open spec fn is_flight_time(n: int, t: nat) -> bool {
    collatz_term(n, t) == 1 && forall|j: nat| j < t ==> #[trigger] collatz_term(n, j) != 1
}

/// The number of steps until the Collatz sequence from `n` reaches 1, and the
/// largest term met on the way.
pub fn calculate_collatz_flight_time_and_max_altitude(n: u64) -> (r: (u64, u64))
    requires
        reaches_one(n as int),
    ensures
        is_flight_time(n as int, r.0 as nat),
        forall|j: nat| j <= r.0 ==> #[trigger] collatz_term(n as int, j) <= r.1,
        exists|j: nat| j <= r.0 && #[trigger] collatz_term(n as int, j) == r.1,
{
    let ghost k = choose|k: nat| reaches_one_at(n as int, k);
    let mut flight_time: u64 = 0;
    let mut max_altitude: u64 = n;
    let mut current_n: u64 = n;
    proof {
        assert(collatz_term(n as int, 0) == n);
    }
    while current_n != 1
        invariant
            reaches_one_at(n as int, k),
            flight_time <= k,
            current_n == collatz_term(n as int, flight_time as nat),
            forall|j: nat| j < flight_time ==> #[trigger] collatz_term(n as int, j) != 1,
            forall|j: nat| j <= flight_time ==> #[trigger] collatz_term(n as int, j) <= max_altitude,
            exists|j: nat| j <= flight_time && #[trigger] collatz_term(n as int, j) == max_altitude,
        decreases k - flight_time,
    {
        proof {
            assert(flight_time < k);
            assert(collatz_term(n as int, (flight_time + 1) as nat) <= u64::MAX);
            assert(collatz_term(n as int, (flight_time + 1) as nat) == collatz_step(current_n as int));
        }
        if current_n % 2 == 0 {
            current_n = current_n / 2;
        } else {
            current_n = 3 * current_n + 1;
        }
        if current_n > max_altitude {
            max_altitude = current_n;
        }
        flight_time = flight_time + 1;
    }
    (flight_time, max_altitude)
}

/// Among `1..=n_max`, the largest flight time and the first number that has
/// it; `(0, 0)` when no flight time is positive.
pub fn find_max_collatz_flight_time(n_max: u64) -> (r: (u64, u64))
    requires
        forall|n: int| 1 <= n <= n_max ==> #[trigger] reaches_one(n),
    ensures
        forall|n: int, t: nat| 1 <= n <= n_max && #[trigger] is_flight_time(n, t) ==> t <= r.0,
        r.1 == 0 ==> r.0 == 0,
        r.1 != 0 ==> 1 <= r.1 <= n_max && is_flight_time(r.1 as int, r.0 as nat) && forall|n: int, t: nat|
            1 <= n < r.1 && #[trigger] is_flight_time(n, t) ==> t < r.0,
{
    let mut max_flight_time: u64 = 0;
    let mut max_flight_time_index: u64 = 0;
    let mut i: u64 = 0;
    while i < n_max
        invariant
            i <= n_max,
            forall|n: int| 1 <= n <= n_max ==> #[trigger] reaches_one(n),
            forall|n: int, t: nat| 1 <= n <= i && #[trigger] is_flight_time(n, t) ==> t <= max_flight_time,
            max_flight_time_index == 0 ==> max_flight_time == 0,
            max_flight_time_index != 0 ==> 1 <= max_flight_time_index <= i && is_flight_time(
                max_flight_time_index as int,
                max_flight_time as nat,
            ) && forall|n: int, t: nat|
                1 <= n < max_flight_time_index && #[trigger] is_flight_time(n, t) ==> t < max_flight_time,
        decreases n_max - i,
    {
        let n = i + 1;
        proof {
            assert(reaches_one(n as int));
        }
        let (flight_time, _) = calculate_collatz_flight_time_and_max_altitude(n);
        proof {
            assert forall|t: nat| #[trigger] is_flight_time(n as int, t) implies t == flight_time by {
                lemma_flight_time_unique(n as int, t, flight_time as nat);
            }
        }
        if flight_time > max_flight_time {
            max_flight_time = flight_time;
            max_flight_time_index = n;
        }
        i = i + 1;
    }
    (max_flight_time, max_flight_time_index)
}

/// A number has one flight time.
pub proof fn lemma_flight_time_unique(n: int, t1: nat, t2: nat)
    requires
        is_flight_time(n, t1),
        is_flight_time(n, t2),
    ensures
        t1 == t2,
{
    if t1 < t2 {
        assert(collatz_term(n, t1) != 1);
    }
    if t2 < t1 {
        assert(collatz_term(n, t2) != 1);
    }
}


/// `p` has no divisor between 2 and itself.
pub open spec fn is_prime(p: int) -> bool {
    p >= 2 && forall|d: int| 2 <= d < p ==> #[trigger] (p % d) != 0
}

/// The primes `p` with `lo <= p < hi`, in increasing order.
pub open spec fn primes_in(lo: int, hi: int) -> Seq<usize>
    decreases hi - lo,
{
    if hi <= lo {
        Seq::empty()
    } else {
        let prev = primes_in(lo, hi - 1);
        if is_prime(hi - 1) {
            prev.push((hi - 1) as usize)
        } else {
            prev
        }
    }
}

/// An odd number has only odd divisors, and a divisor's cofactor divides it.
proof fn lemma_cofactor(i: int, d: int)
    requires
        i >= 3,
        i % 2 == 1,
        2 <= d < i,
        i % d == 0,
    ensures
        d % 2 == 1,
        i / d >= 3,
        (i / d) % 2 == 1,
        i % (i / d) == 0,
        d * (i / d) == i,
{
    let q = i / d;
    vstd::arithmetic::div_mod::lemma_fundamental_div_mod(i, d);
    assert(d * q == i);
    assert(q >= 2) by (nonlinear_arith)
        requires
            d * q == i,
            d < i,
            d >= 2,
    ;
    if d % 2 == 0 {
        let a = d / 2;
        assert(i == 2 * (a * q)) by (nonlinear_arith)
            requires
                d == 2 * a,
                d * q == i,
        ;
        assert(false);
    }
    if q % 2 == 0 {
        let b = q / 2;
        assert(i == 2 * (d * b)) by (nonlinear_arith)
            requires
                q == 2 * b,
                d * q == i,
        ;
        assert(false);
    }
    assert(i % q == 0) by {
        vstd::arithmetic::div_mod::lemma_mod_multiples_basic(d, q);
        assert(d * q == q * d) by (nonlinear_arith);
    }
}

/// Whether the odd number `i` is prime, by trial division with the odd
/// numbers whose square is at most `i`.
fn is_odd_prime(i: usize) -> (r: bool)
    requires
        i >= 3,
        i % 2 == 1,
    ensures
        r == is_prime(i as int),
{
    let mut j: usize = 3;
    while j <= i / j
        invariant
            i >= 3,
            i % 2 == 1,
            3 <= j,
            j % 2 == 1,
            j <= i,
            forall|o: int| 3 <= o < j && o % 2 == 1 ==> #[trigger] ((i as int) % o) != 0,
        decreases i - j,
    {
        if i % j == 0 {
            proof {
                assert(j * j <= i) by (nonlinear_arith)
                    requires
                        j <= i / j,
                        j >= 3,
                ;
                assert(j < i) by (nonlinear_arith)
                    requires
                        j * j <= i,
                        j >= 3,
                ;
                assert((i as int) % (j as int) == 0);
            }
            return false;
        }
        proof {
            assert(j + 2 <= i) by (nonlinear_arith)
                requires
                    j <= i / j,
                    j >= 3,
                    i % 2 == 1,
                    j % 2 == 1,
            ;
        }
        j = j + 2;
    }
    proof {
        assert(i < j * j) by (nonlinear_arith)
            requires
                j > i / j,
                j >= 3,
        ;
        assert forall|d: int| 2 <= d < i implies #[trigger] ((i as int) % d) != 0 by {
            if (i as int) % d == 0 {
                lemma_cofactor(i as int, d);
                let q = (i as int) / d;
                if d < j {
                    assert((i as int) % d != 0);
                } else {
                    assert(q < j) by (nonlinear_arith)
                        requires
                            d * q == i,
                            d >= j,
                            i < j * j,
                            q >= 0,
                            j >= 3,
                    ;
                    assert((i as int) % q != 0);
                }
            }
        }
    }
    true
}

/// An even number from 4 on is no prime.
proof fn lemma_even_not_prime(lo: int, hi: int)
    requires
        hi >= 4,
        hi % 2 == 0,
    ensures
        primes_in(lo, hi + 1) == primes_in(lo, hi) || hi < lo,
{
    assert(hi % 2 == 0);
    assert(!is_prime(hi));
}

/// The primes `p` with `min_n <= p < max_n`, in increasing order, found by
/// trial division of the odd numbers.
pub fn find_primes(min_n: usize, max_n: usize) -> (r: Vec<usize>)
    ensures
        r@ == primes_in(min_n as int, max_n as int),
{
    let mut primes_found: Vec<usize> = Vec::new();
    if min_n >= max_n {
        return primes_found;
    }
    if max_n <= 2 {
        proof {
            lemma_no_primes_below_two(min_n as int, max_n as int);
        }
        return primes_found;
    }
    if min_n <= 2 {
        primes_found.push(2);
        proof {
            lemma_no_primes_below_two(min_n as int, 2);
            assert(is_prime(2));
            assert(primes_in(min_n as int, 3) == primes_in(min_n as int, 2).push(2usize));
        }
    }
    let min_odd_n: usize = if min_n <= 2 {
        3
    } else {
        min_n + (1 - min_n % 2)
    };
    proof {
        if min_n > 2 && min_n % 2 == 0 {
            lemma_even_not_prime(min_n as int, min_n as int);
        }
    }
    let mut i: usize = min_odd_n;
    while i < max_n
        invariant
            3 <= i,
            i % 2 == 1,
            min_n <= i,
            i <= max_n + 1,
            primes_found@ == primes_in(min_n as int, i as int),
        decreases max_n + 2 - i,
    {
        if is_odd_prime(i) {
            primes_found.push(i);
        }
        proof {
            assert(primes_in(min_n as int, i + 1) == if is_prime(i as int) {
                primes_in(min_n as int, i as int).push(i)
            } else {
                primes_in(min_n as int, i as int)
            });
            lemma_even_not_prime(min_n as int, i + 1);
        }
        i = i + 2;
    }
    proof {
        if i > max_n {
            lemma_even_not_prime(min_n as int, max_n as int);
        }
    }
    primes_found
}

/// There is no prime below 2.
proof fn lemma_no_primes_below_two(lo: int, hi: int)
    requires
        hi <= 2,
    ensures
        primes_in(lo, hi) == Seq::<usize>::empty(),
    decreases hi - lo,
{
    if hi > lo {
        lemma_no_primes_below_two(lo, hi - 1);
    }
}


/// A placement of eight queens, one per column and one per row: `s[i]` is
/// the row of the queen in column `i`.
pub open spec fn is_board(s: Seq<usize>) -> bool {
    &&& s.len() == 8
    &&& forall|i: int| 0 <= i < 8 ==> #[trigger] s[i] < 8
    &&& forall|r: usize| r < 8 ==> #[trigger] s.contains(r)
    &&& forall|i: int, j: int| 0 <= i < 8 && 0 <= j < 8 && i != j ==> #[trigger] s[i] != #[trigger] s[j]
}

/// The column of the queen in row `r`.
pub open spec fn column_of(s: Seq<usize>, r: int) -> int {
    choose|i: int| 0 <= i < 8 && s[i] == r
}

/// The queen of row `r` stands in one column.
pub proof fn lemma_board_rows(s: Seq<usize>, r: int)
    requires
        is_board(s),
        0 <= r < 8,
    ensures
        0 <= column_of(s, r) < 8,
        s[column_of(s, r)] == r,
        forall|i: int| 0 <= i < 8 && s[i] == r ==> i == column_of(s, r),
{
    assert(s.contains(r as usize));
}

/// The eight images of a board under the symmetries of the square: itself,
/// its mirror images across the middle row, the middle column, the centre,
/// the two diagonals, and its rotations by a quarter turn each way.
pub open spec fn symmetries(s: Seq<usize>) -> Seq<Seq<usize>> {
    seq![
        s,
        Seq::new(8, |i: int| (7 - s[i]) as usize),
        Seq::new(8, |i: int| s[7 - i]),
        Seq::new(8, |i: int| (7 - s[7 - i]) as usize),
        Seq::new(8, |k: int| column_of(s, k) as usize),
        Seq::new(8, |k: int| (7 - column_of(s, 7 - k)) as usize),
        Seq::new(8, |k: int| (7 - column_of(s, k)) as usize),
        Seq::new(8, |k: int| column_of(s, 7 - k) as usize),
    ]
}

/// The column of the queen in row `row`.
fn find_column(solution: &[usize; 8], row: usize) -> (r: usize)
    requires
        is_board(solution@),
        row < 8,
    ensures
        r as int == column_of(solution@, row as int),
{
    proof {
        lemma_board_rows(solution@, row as int);
    }
    let mut j: usize = 0;
    while j < 8
        invariant
            is_board(solution@),
            row < 8,
            0 <= column_of(solution@, row as int) < 8,
            solution@[column_of(solution@, row as int)] == row,
            forall|i: int| 0 <= i < 8 && solution@[i] == row ==> i == column_of(solution@, row as int),
            j <= column_of(solution@, row as int),
        decreases 8 - j,
    {
        if solution[j] == row {
            return j;
        }
        j = j + 1;
    }
    j
}

/// The images of a board under the eight symmetries of the square, in the
/// order of `symmetries`.
pub fn generate_symmetries_and_rotations(solution: &[usize; 8]) -> (r: Vec<[usize; 8]>)
    requires
        is_board(solution@),
    ensures
        r@.len() == 8,
        forall|k: int| 0 <= k < 8 ==> (#[trigger] r@[k])@ == symmetries(solution@)[k],
{
    let ghost s = solution@;
    let ghost sym = symmetries(s);
    let mut multiple_solutions: Vec<[usize; 8]> = Vec::new();
    multiple_solutions.push(*solution);
    let mut t: [usize; 8] = [0; 8];
    let mut i: usize = 0;
    while i < 8
        invariant
            s == solution@,
            is_board(s),
            i <= 8,
            t@.len() == 8,
            forall|k: int| 0 <= k < i ==> t@[k] == 7 - s[k],
        decreases 8 - i,
    {
        t[i] = 7 - solution[i];
        i = i + 1;
    }
    proof {
        assert(t@ =~= sym[1]);
    }
    multiple_solutions.push(t);
    i = 0;
    while i < 8
        invariant
            s == solution@,
            is_board(s),
            i <= 8,
            t@.len() == 8,
            forall|k: int| 0 <= k < i ==> t@[k] == s[7 - k],
        decreases 8 - i,
    {
        t[i] = solution[7 - i];
        i = i + 1;
    }
    proof {
        assert(t@ =~= sym[2]);
    }
    multiple_solutions.push(t);
    i = 0;
    while i < 8
        invariant
            s == solution@,
            is_board(s),
            i <= 8,
            t@.len() == 8,
            forall|k: int| 0 <= k < i ==> t@[k] == 7 - s[7 - k],
        decreases 8 - i,
    {
        t[i] = 7 - solution[7 - i];
        i = i + 1;
    }
    proof {
        assert(t@ =~= sym[3]);
    }
    multiple_solutions.push(t);
    i = 0;
    while i < 8
        invariant
            s == solution@,
            is_board(s),
            i <= 8,
            t@.len() == 8,
            forall|k: int| 0 <= k < i ==> t@[k] == column_of(s, k),
        decreases 8 - i,
    {
        t[i] = find_column(solution, i);
        i = i + 1;
    }
    proof {
        assert(t@ =~= sym[4]);
    }
    multiple_solutions.push(t);
    i = 0;
    while i < 8
        invariant
            s == solution@,
            is_board(s),
            i <= 8,
            t@.len() == 8,
            forall|k: int| 0 <= k < i ==> t@[k] == 7 - column_of(s, 7 - k),
        decreases 8 - i,
    {
        proof {
            lemma_board_rows(s, 7 - i);
        }
        t[i] = 7 - find_column(solution, 7 - i);
        i = i + 1;
    }
    proof {
        assert(t@ =~= sym[5]);
    }
    multiple_solutions.push(t);
    i = 0;
    while i < 8
        invariant
            s == solution@,
            is_board(s),
            i <= 8,
            t@.len() == 8,
            forall|k: int| 0 <= k < i ==> t@[k] == 7 - column_of(s, k),
        decreases 8 - i,
    {
        proof {
            lemma_board_rows(s, i as int);
        }
        t[i] = 7 - find_column(solution, i);
        i = i + 1;
    }
    proof {
        assert(t@ =~= sym[6]);
    }
    multiple_solutions.push(t);
    i = 0;
    while i < 8
        invariant
            s == solution@,
            is_board(s),
            i <= 8,
            t@.len() == 8,
            forall|k: int| 0 <= k < i ==> t@[k] == column_of(s, 7 - k),
        decreases 8 - i,
    {
        t[i] = find_column(solution, 7 - i);
        i = i + 1;
    }
    proof {
        assert(t@ =~= sym[7]);
    }
    multiple_solutions.push(t);
    proof {
        assert(multiple_solutions@[0]@ == sym[0]);
    }
    multiple_solutions
}


/// The boards of a list.
pub open spec fn boards(list: Seq<[usize; 8]>) -> Seq<Seq<usize>> {
    list.map_values(|a: [usize; 8]| a@)
}

/// Going through the first `n` boards of `sols`: the boards kept, those not
/// an image of a board kept before them; and the images of the boards kept.
pub open spec fn kept_and_seen(sols: Seq<Seq<usize>>, n: nat) -> (Seq<Seq<usize>>, Seq<Seq<usize>>)
    decreases n,
{
    if n == 0 {
        (Seq::empty(), Seq::empty())
    } else {
        let (kept, seen) = kept_and_seen(sols, (n - 1) as nat);
        let s = sols[n - 1];
        if seen.contains(s) {
            (kept, seen)
        } else {
            (kept.push(s), seen + symmetries(s))
        }
    }
}

/// Whether two boards are the same.
fn same_board(a: &[usize; 8], b: &[usize; 8]) -> (r: bool)
    ensures
        r == (a@ == b@),
{
    let mut j: usize = 0;
    while j < 8
        invariant
            j <= 8,
            a@.len() == 8,
            b@.len() == 8,
            forall|k: int| 0 <= k < j ==> a@[k] == b@[k],
        decreases 8 - j,
    {
        if a[j] != b[j] {
            return false;
        }
        j = j + 1;
    }
    proof {
        assert(a@ =~= b@);
    }
    true
}

/// Whether `board` is in `list`.
fn contains_board(list: &Vec<[usize; 8]>, board: &[usize; 8]) -> (r: bool)
    ensures
        r == boards(list@).contains(board@),
{
    let mut i: usize = 0;
    while i < list.len()
        invariant
            i <= list@.len(),
            forall|k: int| 0 <= k < i ==> boards(list@)[k] != board@,
        decreases list@.len() - i,
    {
        if same_board(&list[i], board) {
            proof {
                assert(boards(list@)[i as int] == board@);
            }
            return true;
        }
        i = i + 1;
    }
    false
}

/// The boards of `solutions` that are not an image, under a symmetry of the
/// square, of a board kept before them.
pub fn extract_unique_solutions(solutions: &Vec<[usize; 8]>) -> (r: Vec<[usize; 8]>)
    requires
        forall|i: int| 0 <= i < solutions@.len() ==> is_board(#[trigger] solutions@[i]@),
    ensures
        boards(r@) == kept_and_seen(boards(solutions@), solutions@.len()).0,
{
    let ghost sols = boards(solutions@);
    let mut unique_solutions: Vec<[usize; 8]> = Vec::new();
    let mut multiple_solutions: Vec<[usize; 8]> = Vec::new();
    let mut i: usize = 0;
    while i < solutions.len()
        invariant
            sols == boards(solutions@),
            forall|k: int| 0 <= k < solutions@.len() ==> is_board(#[trigger] solutions@[k]@),
            i <= solutions@.len(),
            boards(unique_solutions@) == kept_and_seen(sols, i as nat).0,
            boards(multiple_solutions@) == kept_and_seen(sols, i as nat).1,
        decreases solutions@.len() - i,
    {
        let current_solution = &solutions[i];
        proof {
            assert(sols[i as int] == current_solution@);
        }
        if !contains_board(&multiple_solutions, current_solution) {
            unique_solutions.push(*current_solution);
            proof {
                assert(boards(unique_solutions@) =~= kept_and_seen(sols, i as nat).0.push(current_solution@));
            }
            let current_multiple_solutions = generate_symmetries_and_rotations(current_solution);
            let ghost seen = boards(multiple_solutions@);
            let mut k: usize = 0;
            while k < 8
                invariant
                    current_multiple_solutions@.len() == 8,
                    forall|m: int| 0 <= m < 8 ==> (#[trigger] current_multiple_solutions@[m])@ == symmetries(current_solution@)[m],
                    k <= 8,
                    boards(multiple_solutions@) == seen + symmetries(current_solution@).subrange(0, k as int),
                decreases 8 - k,
            {
                let ghost before = multiple_solutions@;
                multiple_solutions.push(current_multiple_solutions[k]);
                proof {
                    assert(current_multiple_solutions@[k as int]@ == symmetries(current_solution@)[k as int]);
                    assert(boards(multiple_solutions@) =~= boards(before).push(current_multiple_solutions@[k as int]@));
                    assert(boards(multiple_solutions@) =~= seen + symmetries(current_solution@).subrange(0, k + 1));
                }
                k = k + 1;
            }
            proof {
                assert(symmetries(current_solution@).subrange(0, 8) =~= symmetries(current_solution@));
            }
        }
        i = i + 1;
    }
    unique_solutions
}


/// `x` is among the first `depth` entries of `taken`.
pub open spec fn is_taken(taken: Seq<usize>, depth: int, x: int) -> bool {
    exists|j: int| 0 <= j < depth && taken[j] == x
}

/// How many of the values below `v` are not among the first `depth` entries
/// of `taken`.
pub open spec fn free_below(taken: Seq<usize>, depth: int, v: int) -> int
    decreases v,
{
    if v <= 0 {
        0
    } else {
        free_below(taken, depth, v - 1) + if is_taken(taken, depth, v - 1) {
            0int
        } else {
            1int
        }
    }
}

/// The first `depth` entries of `taken` are distinct and below 8.
pub open spec fn distinct_rows(taken: Seq<usize>, depth: int) -> bool {
    &&& forall|j: int| 0 <= j < depth ==> #[trigger] taken[j] < 8
    &&& forall|i: int, j: int| 0 <= i < depth && 0 <= j < depth && i != j ==> #[trigger] taken[i]
        != #[trigger] taken[j]
}

proof fn lemma_free_below_bounds(taken: Seq<usize>, depth: int, v: int)
    ensures
        0 <= free_below(taken, depth, v),
        v >= 0 ==> free_below(taken, depth, v) <= v,
        free_below(taken, depth, v) == 0 ==> forall|x: int| 0 <= x < v ==> is_taken(taken, depth, x),
    decreases v,
{
    if v > 0 {
        lemma_free_below_bounds(taken, depth, v - 1);
    }
}

proof fn lemma_free_below_none_taken(taken: Seq<usize>, v: int)
    requires
        v >= 0,
    ensures
        free_below(taken, 0, v) == v,
    decreases v,
{
    if v > 0 {
        lemma_free_below_none_taken(taken, v - 1);
    }
}

proof fn lemma_free_below_step(taken: Seq<usize>, depth: int, v: int)
    requires
        depth >= 0,
        !is_taken(taken, depth, taken[depth] as int),
    ensures
        free_below(taken, depth + 1, v) == free_below(taken, depth, v) - if taken[depth] < v {
            1int
        } else {
            0int
        },
    decreases v,
{
    if v > 0 {
        lemma_free_below_step(taken, depth, v - 1);
        let x = v - 1;
        if is_taken(taken, depth + 1, x) {
            let j = choose|j: int| 0 <= j < depth + 1 && taken[j] == x;
            if j < depth {
                assert(is_taken(taken, depth, x));
            }
        }
        if is_taken(taken, depth, x) {
            let j = choose|j: int| 0 <= j < depth && taken[j] == x;
            assert(is_taken(taken, depth + 1, x));
        }
        if x == taken[depth] {
            assert(is_taken(taken, depth + 1, x));
        }
    }
}

/// With `depth` distinct rows taken, `8 - depth` rows are free.
proof fn lemma_free_rows(taken: Seq<usize>, depth: int)
    requires
        0 <= depth <= taken.len(),
        distinct_rows(taken, depth),
    ensures
        free_below(taken, depth, 8) == 8 - depth,
    decreases depth,
{
    if depth == 0 {
        lemma_free_below_none_taken(taken, 8);
    } else {
        lemma_free_rows(taken, depth - 1);
        if is_taken(taken, depth - 1, taken[depth - 1] as int) {
            let j = choose|j: int| 0 <= j < depth - 1 && #[trigger] taken[j] == taken[depth - 1] as int;
            assert(taken[j] != taken[depth - 1]);
        }
        lemma_free_below_step(taken, depth - 1, 8);
    }
}

/// Whether `x` is among the first `depth` entries of `taken`.
fn is_position_taken(taken: &[usize; 8], depth: usize, x: usize) -> (r: bool)
    requires
        depth <= 8,
    ensures
        r == is_taken(taken@, depth as int, x as int),
{
    let mut j: usize = 0;
    while j < depth
        invariant
            j <= depth <= 8,
            forall|i: int| 0 <= i < j ==> taken@[i] != x,
        decreases depth - j,
    {
        if taken[j] == x {
            return true;
        }
        j = j + 1;
    }
    false
}

/// The `k`-th row, counting from 0, among those not in the first `depth`
/// entries of `taken_positions`.
fn find_kth_free_position(k: usize, depth: usize, taken_positions: &[usize; 8]) -> (r: usize)
    requires
        depth <= 8,
        free_below(taken_positions@, depth as int, 8) > k,
    ensures
        r < 8,
        !is_taken(taken_positions@, depth as int, r as int),
        free_below(taken_positions@, depth as int, r as int) == k,
{
    let ghost t = taken_positions@;
    let mut k_decrement = k;
    let mut i: usize = 0;
    while i < 8
        invariant
            depth <= 8,
            t == taken_positions@,
            free_below(t, depth as int, 8) > k,
            i <= 8,
            k_decrement + free_below(t, depth as int, i as int) == k,
        decreases 8 - i,
    {
        if !is_position_taken(taken_positions, depth, i) {
            if k_decrement == 0 {
                return i;
            }
            k_decrement = k_decrement - 1;
        }
        i = i + 1;
    }
    proof {
        assert(false);
    }
    0
}

/// Digit `i` of a choice of free rows is at most `7 - i`.
pub open spec fn valid_digits(rel: Seq<usize>) -> bool {
    rel.len() == 8 && forall|i: int| 0 <= i < 8 ==> #[trigger] rel[i] <= 7 - i
}

/// Moves to the next choice at digit `pruning_index`: that digit goes up by
/// one, or, at its largest, back to zero with a carry into the digit before.
/// Digits after `pruning_index` are kept.
fn advance_to_next_position(current_relative_solution: &mut [usize; 8], pruning_index: usize)
    requires
        pruning_index < 8,
        valid_digits(old(current_relative_solution)@),
        old(current_relative_solution)@[0] < 7,
    ensures
        valid_digits(final(current_relative_solution)@),
        exists|q: int|
            0 <= q <= pruning_index && #[trigger] final(current_relative_solution)@[q]
                == old(current_relative_solution)@[q] + 1 && forall|i: int|
                0 <= i < q ==> final(current_relative_solution)@[i] == old(current_relative_solution)@[i],
    decreases pruning_index,
{
    let max_index = 7 - pruning_index;
    if current_relative_solution[pruning_index] == max_index {
        current_relative_solution[pruning_index] = 0;
        advance_to_next_position(current_relative_solution, pruning_index - 1);
    } else {
        current_relative_solution[pruning_index] = current_relative_solution[pruning_index] + 1;
        proof {
            assert(final(current_relative_solution)@[pruning_index as int]
                == old(current_relative_solution)@[pruning_index as int] + 1);
        }
    }
}

/// Eight queens of which no two share a row or a diagonal.
pub open spec fn is_solution(s: Seq<usize>) -> bool {
    &&& is_board(s)
    &&& forall|i: int, j: int|
        0 <= i < 8 && 0 <= j < 8 && i != j ==> i + #[trigger] s[i] != j + #[trigger] s[j] && i - s[i]
            != j - s[j]
}


/// `a` is `b` mirrored across the middle row.
pub open spec fn is_mirror(a: Seq<usize>, b: Seq<usize>) -> bool {
    forall|i: int| 0 <= i < 8 ==> #[trigger] a[i] == 7 - b[i]
}

/// Solutions of the eight-queens problem, by a search over the choices of a
/// free row for each column that skips every choice sharing a conflicting
/// prefix; the solutions with the first queen in the lower half, then their
/// mirror images across the middle row, in reverse order.
pub fn solve_8_queens_problem() -> (r: Vec<[usize; 8]>)
    ensures
        forall|k: int| 0 <= k < r@.len() ==> is_solution(#[trigger] r@[k]@),
        r@.len() % 2 == 0,
        forall|k: int| 0 <= k < r@.len() / 2 ==> (#[trigger] r@[k])@[0] <= 3,
        forall|k: int|
            0 <= k < r@.len() / 2 ==> is_mirror(#[trigger] r@[r@.len() / 2 + k]@, r@[r@.len() / 2 - 1 - k]@),
{
    let mut solutions: Vec<[usize; 8]> = Vec::new();
    let mut current_relative_solution: [usize; 8] = [0; 8];
    let mut current_absolute_solution: [usize; 8] = [0; 8];
    while current_relative_solution[0] <= 3
        invariant
            valid_digits(current_relative_solution@),
            current_absolute_solution@.len() == 8,
            forall|k: int| 0 <= k < solutions@.len() ==> is_solution(#[trigger] solutions@[k]@),
            forall|k: int| 0 <= k < solutions@.len() ==> (#[trigger] solutions@[k])@[0] <= 3,
        decreases
            7 - current_relative_solution@[0],
            7 - current_relative_solution@[1],
            7 - current_relative_solution@[2],
            7 - current_relative_solution@[3],
            7 - current_relative_solution@[4],
            7 - current_relative_solution@[5],
            7 - current_relative_solution@[6],
            7 - current_relative_solution@[7],
    {
        let mut i: usize = 0;
        while i < 8
            invariant
                i <= 8,
                valid_digits(current_relative_solution@),
                current_absolute_solution@.len() == 8,
                distinct_rows(current_absolute_solution@, i as int),
                current_relative_solution@[0] <= 3,
                i >= 1 ==> current_absolute_solution@[0] == current_relative_solution@[0],
            decreases 8 - i,
        {
            proof {
                lemma_free_rows(current_absolute_solution@, i as int);
            }
            let row = find_kth_free_position(current_relative_solution[i], i, &current_absolute_solution);
            let ghost before = current_absolute_solution@;
            current_absolute_solution[i] = row;
            proof {
                if i == 0 {
                    lemma_free_below_none_taken(before, row as int);
                }
                assert forall|a: int, b: int|
                    0 <= a < i + 1 && 0 <= b < i + 1 && a != b implies #[trigger] current_absolute_solution@[a]
                    != #[trigger] current_absolute_solution@[b] by {
                    if a == i && row == before[b] {
                        assert(is_taken(before, i as int, row as int));
                    } else if b == i && row == before[a] {
                        assert(is_taken(before, i as int, row as int));
                    }
                }
            }
            i = i + 1;
        }
        let ghost board = current_absolute_solution@;
        proof {
            lemma_free_rows(board, 8);
            lemma_free_below_bounds(board, 8, 8);
            assert forall|r: usize| r < 8 implies #[trigger] board.contains(r) by {
                assert(is_taken(board, 8, r as int));
                let j = choose|j: int| 0 <= j < 8 && board[j] == r as int;
                assert(board[j] == r);
            }
        }
        let mut pruning_index: usize = 8;
        let mut i: usize = 0;
        while i < 8 && pruning_index == 8
            invariant
                board == current_absolute_solution@,
                is_board(board),
                i <= 8,
                pruning_index == 8 || pruning_index < 8,
                pruning_index == 8 ==> forall|a: int, b: int|
                    0 <= a < i && 0 <= b < i && a != b ==> a + #[trigger] board[a] != b + #[trigger] board[b]
                        && a - board[a] != b - board[b],
            decreases 8 - i,
        {
            let mut j: usize = 0;
            while j < i && pruning_index == 8
                invariant
                    board == current_absolute_solution@,
                    is_board(board),
                    j <= i < 8,
                    pruning_index == 8 || pruning_index < 8,
                    pruning_index == 8 ==> forall|a: int, b: int|
                        0 <= a < i && 0 <= b < i && a != b ==> a + #[trigger] board[a] != b + #[trigger] board[b]
                            && a - board[a] != b - board[b],
                    pruning_index == 8 ==> forall|b: int|
                        0 <= b < j ==> i + board[i as int] != b + #[trigger] board[b] && i - board[i as int] != b
                            - board[b],
                decreases i - j,
            {
                let ai = current_absolute_solution[i];
                let aj = current_absolute_solution[j];
                if i + ai == j + aj || i + aj == j + ai {
                    pruning_index = i;
                }
                j = j + 1;
            }
            i = i + 1;
        }
        if pruning_index == 8 {
            solutions.push(current_absolute_solution);
            proof {
                assert(is_solution(board));
            }
            pruning_index = 7;
        }
        let ghost rel0 = current_relative_solution@;
        advance_to_next_position(&mut current_relative_solution, pruning_index);
        proof {
            let q = choose|q: int|
                0 <= q <= pruning_index && #[trigger] current_relative_solution@[q] == rel0[q] + 1 && forall|
                    i: int,
                | 0 <= i < q ==> current_relative_solution@[i] == rel0[i];
            assert(0 <= q < 8);
        }
    }
    let n_solutions_without_symmetry = solutions.len();
    let ghost first = solutions@;
    let mut sol_index: usize = 0;
    while sol_index < n_solutions_without_symmetry
        invariant
            n_solutions_without_symmetry == first.len(),
            solutions@.len() == first.len() + sol_index,
            sol_index <= n_solutions_without_symmetry,
            solutions@.subrange(0, first.len() as int) == first,
            forall|k: int| 0 <= k < first.len() ==> (#[trigger] first[k])@[0] <= 3,
            forall|k: int| 0 <= k < solutions@.len() ==> is_solution(#[trigger] solutions@[k]@),
            forall|k: int|
                0 <= k < sol_index ==> is_mirror(#[trigger] solutions@[first.len() + k]@, first[first.len() - 1 - k]@),
        decreases n_solutions_without_symmetry - sol_index,
    {
        let previous_solution = solutions[n_solutions_without_symmetry - 1 - sol_index];
        let ghost p = previous_solution@;
        proof {
            assert(is_solution(solutions@[n_solutions_without_symmetry - 1 - sol_index]@));
        }
        let mut new_solution: [usize; 8] = [0; 8];
        let mut i: usize = 0;
        while i < 8
            invariant
                p == previous_solution@,
                is_solution(p),
                i <= 8,
                new_solution@.len() == 8,
                forall|k: int| 0 <= k < i ==> new_solution@[k] == 7 - p[k],
            decreases 8 - i,
        {
            new_solution[i] = 7 - previous_solution[i];
            i = i + 1;
        }
        proof {
            let m = new_solution@;
            assert forall|r: usize| r < 8 implies #[trigger] m.contains(r) by {
                assert(p.contains((7 - r) as usize));
                let j = choose|j: int| 0 <= j < p.len() && p[j] == (7 - r) as usize;
                assert(m[j] == r);
            }
            assert forall|a: int, b: int| 0 <= a < 8 && 0 <= b < 8 && a != b implies #[trigger] m[a]
                != #[trigger] m[b] by {
                assert(p[a] != p[b]);
            }
            assert forall|a: int, b: int|
                0 <= a < 8 && 0 <= b < 8 && a != b implies a + #[trigger] m[a] != b + #[trigger] m[b] && a
                - m[a] != b - m[b] by {
                assert(a + p[a] != b + p[b] && a - p[a] != b - p[b]);
            }
            assert(is_solution(m));
        }
        let ghost before = solutions@;
        solutions.push(new_solution);
        proof {
            assert(before.subrange(0, first.len() as int) == first);
            assert(solutions@.subrange(0, first.len() as int) =~= first) by {
                assert forall|k: int| 0 <= k < first.len() implies solutions@[k] == first[k] by {
                    assert(before.subrange(0, first.len() as int)[k] == before[k]);
                }
            }
            assert(p == first[first.len() - 1 - sol_index]@) by {
                assert(before.subrange(0, first.len() as int)[first.len() - 1 - sol_index] == before[first.len() - 1 - sol_index]);
            }
            assert forall|k: int|
                0 <= k < sol_index + 1 implies is_mirror(#[trigger] solutions@[first.len() + k]@, first[first.len() - 1 - k]@) by {
                if k < sol_index {
                    assert(solutions@[first.len() + k] == before[first.len() + k]);
                }
            }
        }
        sol_index = sol_index + 1;
    }
    proof {
        assert forall|k: int| 0 <= k < solutions@.len() / 2 implies (#[trigger] solutions@[k])@[0] <= 3 by {
            assert(solutions@.subrange(0, first.len() as int)[k] == solutions@[k]);
        }
    }
    solutions
}

} // verus!

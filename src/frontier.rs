//! The open set of the shortest-path engine: a vector of `(vertex, distance)`
//! entries in insertion order, each vertex at most once.
use vstd::prelude::*;

verus! {

/// `s` lists exactly the entries of `m`, each key once.
pub open spec fn frontier_view(s: Seq<(u64, u64)>, m: Map<u64, u64>) -> bool {
    &&& forall|i: int| 0 <= i < s.len() ==> m.contains_key(#[trigger] s[i].0) && m[s[i].0] == s[i].1
    &&& forall|k: u64| m.contains_key(k) ==> exists|i: int| 0 <= i < s.len() && #[trigger] s[i] == (k, m[k])
    &&& forall|i: int, j: int| 0 <= i < s.len() && 0 <= j < s.len() && i != j ==> #[trigger] s[i].0 != #[trigger] s[j].0
}

pub proof fn lemma_frontier_empty()
    ensures
        frontier_view(Seq::empty(), Map::empty()),
{
}

pub proof fn lemma_frontier_absent(s: Seq<(u64, u64)>, m: Map<u64, u64>, k: u64)
    requires
        frontier_view(s, m),
        forall|j: int| 0 <= j < s.len() ==> #[trigger] s[j].0 != k,
    ensures
        !m.contains_key(k),
{
    if m.contains_key(k) {
        let j = choose|j: int| 0 <= j < s.len() && #[trigger] s[j] == (k, m[k]);
        assert(s[j].0 == k);
    }
}

/// The value of an entry is the value of its key.
pub proof fn lemma_frontier_entry(s: Seq<(u64, u64)>, m: Map<u64, u64>, k: u64)
    requires
        frontier_view(s, m),
        m.contains_key(k),
    ensures
        exists|j: int| 0 <= j < s.len() && #[trigger] s[j] == (k, m[k]),
{
}

pub proof fn lemma_frontier_push(s: Seq<(u64, u64)>, m: Map<u64, u64>, k: u64, v: u64)
    requires
        frontier_view(s, m),
        !m.contains_key(k),
    ensures
        frontier_view(s.push((k, v)), m.insert(k, v)),
{
    let s2 = s.push((k, v));
    let m2 = m.insert(k, v);
    assert forall|q: u64| m2.contains_key(q) implies exists|i: int| 0 <= i < s2.len() && #[trigger] s2[i] == (q, m2[q]) by {
        if q == k {
            assert(s2[s.len() as int] == (q, m2[q]));
        } else {
            let i = choose|i: int| 0 <= i < s.len() && #[trigger] s[i] == (q, m[q]);
            assert(s2[i] == (q, m2[q]));
        }
    }
}

pub proof fn lemma_frontier_update(s: Seq<(u64, u64)>, m: Map<u64, u64>, i: int, v: u64)
    requires
        frontier_view(s, m),
        0 <= i < s.len(),
    ensures
        frontier_view(s.update(i, (s[i].0, v)), m.insert(s[i].0, v)),
{
    let k = s[i].0;
    let s2 = s.update(i, (k, v));
    let m2 = m.insert(k, v);
    assert forall|q: u64| m2.contains_key(q) implies exists|j: int| 0 <= j < s2.len() && #[trigger] s2[j] == (q, m2[q]) by {
        if q == k {
            assert(s2[i] == (q, m2[q]));
        } else {
            let j = choose|j: int| 0 <= j < s.len() && #[trigger] s[j] == (q, m[q]);
            assert(s2[j] == (q, m2[q]));
        }
    }
    assert forall|a: int, b: int| 0 <= a < s2.len() && 0 <= b < s2.len() && a != b implies #[trigger] s2[a].0 != #[trigger] s2[b].0 by {
        assert(s[a].0 != s[b].0);
    }
}

pub proof fn lemma_frontier_remove(s: Seq<(u64, u64)>, m: Map<u64, u64>, i: int)
    requires
        frontier_view(s, m),
        0 <= i < s.len(),
    ensures
        frontier_view(s.remove(i), m.remove(s[i].0)),
{
    let k = s[i].0;
    let s2 = s.remove(i);
    let m2 = m.remove(k);
    assert forall|a: int| 0 <= a < s2.len() implies m2.contains_key(#[trigger] s2[a].0) && m2[s2[a].0] == s2[a].1 by {
        if a < i {
            assert(s2[a] == s[a]);
            assert(s[a].0 != s[i].0);
        } else {
            assert(s2[a] == s[a + 1]);
            assert(s[a + 1].0 != s[i].0);
        }
    }
    assert forall|q: u64| m2.contains_key(q) implies exists|j: int| 0 <= j < s2.len() && #[trigger] s2[j] == (q, m2[q]) by {
        let j = choose|j: int| 0 <= j < s.len() && #[trigger] s[j] == (q, m[q]);
        if j < i {
            assert(s2[j] == (q, m2[q]));
        } else {
            assert(j != i);
            assert(s2[j - 1] == (q, m2[q]));
        }
    }
    assert forall|a: int, b: int| 0 <= a < s2.len() && 0 <= b < s2.len() && a != b implies #[trigger] s2[a].0 != #[trigger] s2[b].0 by {
        let a1 = if a < i { a } else { a + 1 };
        let b1 = if b < i { b } else { b + 1 };
        assert(s2[a] == s[a1]);
        assert(s2[b] == s[b1]);
        assert(s[a1].0 != s[b1].0);
    }
}

/// The index of the first entry whose key is `k`, if any.
pub open spec fn key_index(s: Seq<(u64, u64)>, k: u64) -> Option<int>
    decreases s.len(),
{
    if s.len() == 0 {
        None
    } else {
        match key_index(s.drop_last(), k) {
            Some(i) => Some(i),
            None => if s.last().0 == k {
                Some(s.len() - 1)
            } else {
                None
            },
        }
    }
}

pub proof fn lemma_key_index(s: Seq<(u64, u64)>, k: u64)
    ensures
        match key_index(s, k) {
            Some(i) => 0 <= i < s.len() && s[i].0 == k && forall|j: int| 0 <= j < i ==> #[trigger] s[j].0 != k,
            None => forall|j: int| 0 <= j < s.len() ==> #[trigger] s[j].0 != k,
        },
    decreases s.len(),
{
    if s.len() > 0 {
        lemma_key_index(s.drop_last(), k);
        assert forall|j: int| 0 <= j < s.len() - 1 implies s.drop_last()[j] == #[trigger] s[j] by {}
    }
}

/// The index of the first entry of least distance, for a non-empty `s`.
pub open spec fn first_min_index(s: Seq<(u64, u64)>) -> int
    decreases s.len(),
{
    if s.len() <= 1 {
        0
    } else {
        let j = first_min_index(s.drop_last());
        if s.last().1 < s[j].1 {
            s.len() - 1
        } else {
            j
        }
    }
}

pub proof fn lemma_first_min_index(s: Seq<(u64, u64)>)
    requires
        s.len() > 0,
    ensures
        0 <= first_min_index(s) < s.len(),
        forall|j: int| 0 <= j < s.len() ==> s[first_min_index(s)].1 <= #[trigger] s[j].1,
        forall|j: int| 0 <= j < first_min_index(s) ==> s[first_min_index(s)].1 < #[trigger] s[j].1,
    decreases s.len(),
{
    if s.len() > 1 {
        lemma_first_min_index(s.drop_last());
        assert forall|j: int| 0 <= j < s.len() - 1 implies s.drop_last()[j] == #[trigger] s[j] by {}
    }
}

/// Index of the entry with the least distance; among equal distances, the
/// first one in insertion order.
pub fn find_min_key_value_pair(frontier: &Vec<(u64, u64)>) -> (r: usize)
    requires
        frontier@.len() > 0,
    ensures
        r == first_min_index(frontier@),
        r < frontier@.len(),
        forall|j: int| 0 <= j < frontier@.len() ==> frontier@[r as int].1 <= #[trigger] frontier@[j].1,
        forall|j: int| 0 <= j < r ==> frontier@[r as int].1 < #[trigger] frontier@[j].1,
{
    let mut best: usize = 0;
    let mut i: usize = 1;
    while i < frontier.len()
        invariant
            0 <= best < i <= frontier@.len(),
            forall|j: int| 0 <= j < i ==> frontier@[best as int].1 <= #[trigger] frontier@[j].1,
            forall|j: int| 0 <= j < best ==> frontier@[best as int].1 < #[trigger] frontier@[j].1,
        decreases frontier@.len() - i,
    {
        if frontier[i].1 < frontier[best].1 {
            best = i;
        }
        i = i + 1;
    }
    proof {
        lemma_first_min_index(frontier@);
        let f = first_min_index(frontier@);
        if f < best {
            assert(frontier@[best as int].1 < frontier@[f].1);
        } else if best < f {
            assert(frontier@[f].1 < frontier@[best as int].1);
        }
    }
    best
}

/// Index of the entry for `vertex`, if the open set holds one.
pub fn frontier_position(frontier: &Vec<(u64, u64)>, vertex: u64) -> (r: Option<usize>)
    ensures
        match r {
            Some(i) => i < frontier@.len() && frontier@[i as int].0 == vertex && key_index(frontier@, vertex)
                == Some(i as int),
            None => forall|j: int| 0 <= j < frontier@.len() ==> #[trigger] frontier@[j].0 != vertex,
        },
        r is None <==> key_index(frontier@, vertex) is None,
{
    proof {
        lemma_key_index(frontier@, vertex);
    }
    let mut i: usize = 0;
    while i < frontier.len()
        invariant
            i <= frontier@.len(),
            forall|j: int| 0 <= j < i ==> #[trigger] frontier@[j].0 != vertex,
        decreases frontier@.len() - i,
    {
        if frontier[i].0 == vertex {
            proof {
                lemma_key_index(frontier@, vertex);
                if key_index(frontier@, vertex) is None {
                    assert(frontier@[i as int].0 != vertex);
                }
                let f = key_index(frontier@, vertex)->0;
                if f < i {
                    assert(frontier@[f].0 != vertex);
                }
                if f > i {
                    assert(frontier@[i as int].0 != vertex);
                }
            }
            return Some(i);
        }
        i = i + 1;
    }
    proof {
        lemma_key_index(frontier@, vertex);
        if key_index(frontier@, vertex) is Some {
            let f = key_index(frontier@, vertex)->0;
            assert(frontier@[f].0 != vertex);
        }
    }
    None
}

} // verus!

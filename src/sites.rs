//! Preparing the sites: which input points are distinct, and the order in
//! which the sweep meets them.
use crate::diagram::indices_where;
use vstd::prelude::*;

verus! {

/// Why a diagram cannot be built.
#[derive(Clone, Copy, Debug, PartialEq, Eq, Structural)]
pub enum BuildError {
    /// Fewer than two distinct points were given.
    FewPoints,
    /// A point was the zero vector, which names no direction.
    InvalidInput,
}

/// Whether the point at `i` equals no point before it.
pub open spec fn first_occurrence<T>(points: Seq<T>, i: int) -> bool {
    forall|j: int| 0 <= j < i ==> points[j] != points[i]
}

/// The positions of the first occurrence of each distinct point, in order.
/// Points are compared as they are given: the caller encodes each one
/// exactly, so that equal encodings mean coincident points.
pub fn distinct_sites(points: &Vec<(u64, u64, u64)>) -> (r: Vec<usize>)
    ensures
        r@.map_values(|i: usize| i as int) == indices_where(
            points@.len() as int,
            |i: int| first_occurrence(points@, i),
        ),
{
    let ghost f = |i: int| first_occurrence(points@, i);
    let n = points.len();
    let mut r: Vec<usize> = Vec::new();
    let mut i: usize = 0;
    while i < n
        invariant
            f == (|i: int| first_occurrence(points@, i)),
            n == points@.len(),
            i <= n,
            r@.map_values(|i: usize| i as int) == indices_where(i as int, f),
        decreases n - i,
    {
        let p = points[i];
        let mut j: usize = 0;
        let mut fresh = true;
        while j < i
            invariant
                n == points@.len(),
                i < n,
                j <= i,
                p == points@[i as int],
                fresh == forall|k: int| 0 <= k < j ==> points@[k] != points@[i as int],
            decreases i - j,
        {
            let q = points[j];
            if q.0 == p.0 && q.1 == p.1 && q.2 == p.2 {
                fresh = false;
            }
            j += 1;
        }
        let ghost before = r@;
        assert(indices_where(i + 1, f) == if f(i as int) {
            indices_where(i as int, f).push(i as int)
        } else {
            indices_where(i as int, f)
        });
        assert(fresh == f(i as int));
        if fresh {
            r.push(i);
            assert(r@.map_values(|i: usize| i as int) =~= before.map_values(|i: usize| i as int).push(
                i as int,
            ));
        }
        i += 1;
    }
    r
}

/// Refuses a set of fewer than two distinct sites.
pub fn check_site_count(count: usize) -> (r: Result<(), BuildError>)
    ensures
        r is Err <==> count < 2,
        r is Err ==> r == Err::<(), BuildError>(BuildError::FewPoints),
{
    if count < 2 {
        Err(BuildError::FewPoints)
    } else {
        Ok(())
    }
}

/// Whether the site `a` with key `ka` is met before the site `b` with key
/// `kb`: by key, then by position.
pub open spec fn met_before(ka: u64, a: usize, kb: u64, b: usize) -> bool {
    ka < kb || (ka == kb && a < b)
}

/// The positions `0..keys.len()`, each once, in the order the sweep meets
/// them: by key, ties by position. A key is the site's polar angle in any
/// encoding whose integer order is the order of the angles.
pub fn sweep_order(keys: &Vec<u64>) -> (r: Vec<usize>)
    ensures
        r@.len() == keys@.len(),
        r@.no_duplicates(),
        forall|k: int| 0 <= k < r@.len() ==> #[trigger] r@[k] < keys@.len(),
        forall|a: int, b: int|
            0 <= a < b < r@.len() ==> met_before(
                keys@[r@[a] as int],
                #[trigger] r@[a],
                keys@[r@[b] as int],
                #[trigger] r@[b],
            ),
{
    let n = keys.len();
    let mut r: Vec<usize> = Vec::new();
    let mut i: usize = 0;
    while i < n
        invariant
            n == keys@.len(),
            i <= n,
            r@.len() == i,
            r@.no_duplicates(),
            forall|k: int| 0 <= k < r@.len() ==> #[trigger] r@[k] < i,
            forall|a: int, b: int|
                0 <= a < b < r@.len() ==> met_before(
                    keys@[r@[a] as int],
                    #[trigger] r@[a],
                    keys@[r@[b] as int],
                    #[trigger] r@[b],
                ),
        decreases n - i,
    {
        let ki = keys[i];
        let mut at: usize = r.len();
        while at > 0 && keys[r[at - 1]] > ki
            invariant
                n == keys@.len(),
                i < n,
                ki == keys@[i as int],
                at <= r@.len(),
                forall|k: int| 0 <= k < r@.len() ==> #[trigger] r@[k] < i,
                forall|k: int| at <= k < r@.len() ==> keys@[#[trigger] r@[k] as int] > ki,
            decreases at,
        {
            at -= 1;
        }
        let ghost before = r@;
        r.insert(at, i);
        proof {
            assert forall|k: int| 0 <= k < r@.len() implies #[trigger] r@[k] < i + 1 by {
                if k < at {
                    assert(r@[k] == before[k]);
                } else if k > at {
                    assert(r@[k] == before[k - 1]);
                }
            }
            assert forall|a: int, b: int| 0 <= a < b < r@.len() implies met_before(
                keys@[r@[a] as int],
                #[trigger] r@[a],
                keys@[r@[b] as int],
                #[trigger] r@[b],
            ) by {
                if a < at && b < at {
                    assert(r@[a] == before[a] && r@[b] == before[b]);
                } else if a < at && b == at {
                    assert(r@[a] == before[a]);
                    if at > 0 {
                        assert(keys@[before[at - 1] as int] <= ki);
                        if a < at - 1 {
                            assert(met_before(keys@[before[a] as int], before[a], keys@[before[at - 1] as int], before[at - 1]));
                        }
                    }
                } else if a < at {
                    assert(r@[a] == before[a] && r@[b] == before[b - 1]);
                } else if a == at {
                    assert(r@[b] == before[b - 1]);
                } else {
                    assert(r@[a] == before[a - 1] && r@[b] == before[b - 1]);
                }
            }
            assert forall|a: int, b: int| 0 <= a < b < r@.len() implies r@[a] != r@[b] by {
                let ka = if a < at { a } else { a - 1 };
                let kb = if b < at { b } else { b - 1 };
                if a != at && b != at {
                    assert(r@[a] == before[ka] && r@[b] == before[kb]);
                } else if a == at {
                    assert(r@[b] == before[kb]);
                } else {
                    assert(r@[a] == before[ka]);
                }
            }
        }
        i += 1;
    }
    r
}

} // verus!

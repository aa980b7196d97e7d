use vstd::prelude::*;

use crate::droplet::{ids_unique, Blob, Droplet, DropletId};
use crate::location::abs_int;

verus! {

/// Largest number of droplets that one reconciliation handles; it keeps
/// every total of the cost matrix far inside `i64`.
pub const MAX_VIEW_SIZE: usize = 0x10_0000;

/// Bound on one entry of the cost matrix.
pub const MAX_WEIGHT: i64 = 0x8_0000_0000;

/// Why two views could not be reconciled.
#[derive(Clone, Copy, Debug, PartialEq, Eq, Structural)]
pub enum ViewError {
    /// The expected and observed views hold different numbers of droplets.
    LengthMismatch { expected: usize, observed: usize },
}

/// Dissimilarity of an observed blob and an expected droplet: the distance
/// between their locations, plus the distance between their dimensions, plus
/// the difference of their volumes.
pub open spec fn similarity(blob: Blob, droplet: Droplet) -> int {
    blob.location.dist(droplet.location) + blob.dimensions.dist(droplet.dimensions) + abs_int(
        blob.volume - droplet.volume,
    )
}

/// The blob shows exactly the droplet's location, dimensions and volume.
pub open spec fn same_state(droplet: Droplet, blob: Blob) -> bool {
    blob == (Blob { location: droplet.location, dimensions: droplet.dimensions, volume: droplet.volume })
}

/// `p` sends each of `n` rows to its own column below `n`.
pub open spec fn is_assignment(p: Seq<usize>, n: int) -> bool {
    &&& p.len() == n
    &&& forall|i: int| 0 <= i < n ==> #[trigger] p[i] < n
    &&& forall|i: int, j: int| 0 <= i < j < n ==> #[trigger] p[i] != #[trigger] p[j]
}

/// Total weight of the rows of `p` in the row-major `n`-column matrix `w`.
pub open spec fn assignment_cost(w: Seq<i64>, n: int, p: Seq<usize>) -> int
    decreases p.len(),
{
    if p.len() == 0 {
        0
    } else {
        assignment_cost(w, n, p.drop_last()) + w[(p.len() - 1) * n + p.last()]
    }
}

/// Total dissimilarity when expected droplet `i` is paired with observed blob `p[i]`.
pub open spec fn views_cost(expected: Seq<Droplet>, observed: Seq<Blob>, p: Seq<usize>) -> int
    decreases p.len(),
{
    if p.len() == 0 {
        0
    } else {
        views_cost(expected, observed, p.drop_last()) + similarity(
            observed[p.last() as int],
            expected[p.len() - 1],
        )
    }
}

/// `p` pairs expected droplets with observed blobs one to one, at the least
/// total dissimilarity.
pub open spec fn optimal_assignment(expected: Seq<Droplet>, observed: Seq<Blob>, p: Seq<usize>) -> bool {
    &&& expected.len() == observed.len()
    &&& is_assignment(p, expected.len() as int)
    &&& forall|q: Seq<usize>| #[trigger] is_assignment(q, expected.len() as int) ==> views_cost(expected, observed, p)
        <= views_cost(expected, observed, q)
}

/// `m` gives each expected droplet's id with the blob that `p` pairs it with.
pub open spec fn matched_by(
    expected: Seq<Droplet>,
    observed: Seq<Blob>,
    m: Seq<(DropletId, Blob)>,
    p: Seq<usize>,
) -> bool {
    &&& m.len() == expected.len()
    &&& forall|i: int| 0 <= i < m.len() ==> #[trigger] m[i] == (expected[i].id, observed[p[i] as int])
}

/// `m` is a reconciliation of the two views: some least-cost pairing gives it.
pub open spec fn reconciled(expected: Seq<Droplet>, observed: Seq<Blob>, m: Seq<(DropletId, Blob)>) -> bool {
    exists|p: Seq<usize>| #[trigger] optimal_assignment(expected, observed, p) && matched_by(expected, observed, m, p)
}

/// Relies on `pathfinding::kuhn_munkres::kuhn_munkres_min`: on a square
/// matrix it returns a minimum-weight perfect matching, as the column given
/// to each row, with that matching's total weight.
#[verifier::external_body]
fn kuhn_munkres_min_square(n: usize, weights: Vec<i64>) -> (r: (i64, Vec<usize>))
    requires
        0 < n <= MAX_VIEW_SIZE,
        weights@.len() == n * n,
        forall|k: int| 0 <= k < weights@.len() ==> 0 <= #[trigger] weights@[k] <= MAX_WEIGHT,
    ensures
        is_assignment(r.1@, n as int),
        r.0 == assignment_cost(weights@, n as int, r.1@),
        forall|p: Seq<usize>| #[trigger] is_assignment(p, n as int) ==> r.0 <= assignment_cost(weights@, n as int, p),
{
    let matrix = pathfinding::matrix::Matrix::from_vec(n, n, weights).unwrap();
    pathfinding::kuhn_munkres::kuhn_munkres_min(&matrix)
}

/// Dissimilarity of `blob` and `droplet`.
pub fn get_similarity(blob: &Blob, droplet: &Droplet) -> (r: i64)
    ensures
        r == similarity(*blob, *droplet),
        0 <= r <= MAX_WEIGHT,
{
    let dl = blob.location.distance_to(&droplet.location);
    let dd = blob.dimensions.distance_to(&droplet.dimensions);
    let dv: i64 = blob.volume as i64 - droplet.volume as i64;
    let av: i64 = if dv < 0 { -dv } else { dv };
    (dl as i64) + (dd as i64) + av
}

/// Row-major matrix whose entry `(i, j)` is the dissimilarity of observed
/// blob `j` and expected droplet `i`.
fn similarity_matrix(expected: &Vec<Droplet>, observed: &Vec<Blob>) -> (r: Vec<i64>)
    requires
        expected@.len() == observed@.len(),
        expected@.len() <= MAX_VIEW_SIZE,
    ensures
        r@.len() == expected@.len() * expected@.len(),
        forall|i: int, j: int|
            0 <= i < expected@.len() && 0 <= j < expected@.len() ==> #[trigger] r@[i * expected@.len() + j]
                == similarity(observed@[j], expected@[i]),
        forall|k: int| 0 <= k < r@.len() ==> 0 <= #[trigger] r@[k] <= MAX_WEIGHT,
{
    let n = expected.len();
    let mut r: Vec<i64> = Vec::new();
    let mut i: usize = 0;
    while i < n
        invariant
            n == expected@.len(),
            n == observed@.len(),
            n <= MAX_VIEW_SIZE,
            i <= n,
            r@.len() == i * n,
            forall|a: int, j: int| 0 <= a < i && 0 <= j < n ==> #[trigger] r@[a * n + j] == similarity(observed@[j], expected@[a]),
            forall|k: int| 0 <= k < r@.len() ==> 0 <= #[trigger] r@[k] <= MAX_WEIGHT,
        decreases n - i,
    {
        let mut j: usize = 0;
        while j < n
            invariant
                n == expected@.len(),
                n == observed@.len(),
                n <= MAX_VIEW_SIZE,
                i < n,
                j <= n,
                r@.len() == i * n + j,
                forall|a: int, b: int| 0 <= a < i && 0 <= b < n ==> #[trigger] r@[a * n + b] == similarity(observed@[b], expected@[a]),
                forall|b: int| 0 <= b < j ==> #[trigger] r@[i * n + b] == similarity(observed@[b], expected@[i as int]),
                forall|k: int| 0 <= k < r@.len() ==> 0 <= #[trigger] r@[k] <= MAX_WEIGHT,
            decreases n - j,
        {
            proof {
                assert(i * n + j < n * n) by (nonlinear_arith)
                    requires i < n, j < n;
                assert(n * n <= MAX_VIEW_SIZE * MAX_VIEW_SIZE) by (nonlinear_arith)
                    requires n <= MAX_VIEW_SIZE;
            }
            let s = get_similarity(&observed[j], &expected[i]);
            let ghost old_r = r@;
            r.push(s);
            proof {
                assert forall|a: int, b: int| 0 <= a < i && 0 <= b < n implies #[trigger] r@[a * n + b] == similarity(observed@[b], expected@[a]) by {
                    assert(a * n + b < i * n) by (nonlinear_arith)
                        requires a < i, b < n;
                    assert(r@[a * n + b] == old_r[a * n + b]);
                }
            }
            j += 1;
        }
        proof {
            assert((i + 1) * n == i * n + n) by (nonlinear_arith);
            assert forall|a: int, b: int| 0 <= a < i + 1 && 0 <= b < n implies #[trigger] r@[a * n + b] == similarity(observed@[b], expected@[a]) by {
                if a == i {
                    assert(r@[i * n + b] == similarity(observed@[b], expected@[i as int]));
                }
            }
        }
        i += 1;
    }
    r
}

/// Pairs each expected droplet with an observed blob so that the total
/// dissimilarity is least; fails when the views differ in size.
pub fn assign(expected: &Vec<Droplet>, observed: &Vec<Blob>) -> (r: Result<Vec<usize>, ViewError>)
    requires
        expected@.len() <= MAX_VIEW_SIZE,
    ensures
        r is Err <==> expected@.len() != observed@.len(),
        r matches Err(e) ==> e == (ViewError::LengthMismatch { expected: expected.len(), observed: observed.len() }),
        r matches Ok(p) ==> optimal_assignment(expected@, observed@, p@),
{
    if expected.len() != observed.len() {
        return Err(ViewError::LengthMismatch { expected: expected.len(), observed: observed.len() });
    }
    let n = expected.len();
    if n == 0 {
        let p: Vec<usize> = Vec::new();
        proof {
            assert forall|q: Seq<usize>| #[trigger] is_assignment(q, 0) implies views_cost(expected@, observed@, p@)
                <= views_cost(expected@, observed@, q) by {
                assert(q.len() == 0);
            }
        }
        return Ok(p);
    }
    let w = similarity_matrix(expected, observed);
    let ghost wv = w@;
    let (_total, p) = kuhn_munkres_min_square(n, w);
    proof {
        lemma_weights_cost(wv, expected@, observed@, p@);
        assert forall|q: Seq<usize>| #[trigger] is_assignment(q, n as int) implies views_cost(expected@, observed@, p@)
            <= views_cost(expected@, observed@, q) by {
            lemma_weights_cost(wv, expected@, observed@, q);
        }
    }
    Ok(p)
}

/// Reconciles the expected droplets with the observed blobs: each droplet's
/// id with the blob of a least-cost one-to-one pairing, in the order of
/// `exec_view`. Fails when the two views differ in size.
pub fn match_views(exec_view: Vec<Droplet>, chip_view: Vec<Blob>) -> (r: Result<Vec<(DropletId, Blob)>, ViewError>)
    requires
        exec_view@.len() <= MAX_VIEW_SIZE,
        ids_unique(exec_view@),
    ensures
        r matches Ok(m) ==> forall|a: int, b: int| 0 <= a < b < m@.len() ==> (#[trigger] m@[a]).0 != (#[trigger] m@[b]).0,
        r is Err <==> exec_view@.len() != chip_view@.len(),
        r matches Err(e) ==> e == (ViewError::LengthMismatch { expected: exec_view.len(), observed: chip_view.len() }),
        r matches Ok(m) ==> reconciled(exec_view@, chip_view@, m@),
{
    let p = match assign(&exec_view, &chip_view) {
        Ok(p) => p,
        Err(e) => {
            return Err(e);
        },
    };
    let mut m: Vec<(DropletId, Blob)> = Vec::new();
    let mut i: usize = 0;
    while i < p.len()
        invariant
            optimal_assignment(exec_view@, chip_view@, p@),
            i <= p@.len(),
            m@.len() == i,
            forall|a: int| 0 <= a < i ==> #[trigger] m@[a] == (exec_view@[a].id, chip_view@[p@[a] as int]),
        decreases p@.len() - i,
    {
        assert(p@[i as int] < p@.len());
        m.push((exec_view[i].id, chip_view[p[i]]));
        i += 1;
    }
    assert(matched_by(exec_view@, chip_view@, m@, p@));
    assert forall|a: int, b: int| 0 <= a < b < m@.len() implies (#[trigger] m@[a]).0 != (#[trigger] m@[b]).0 by {
        assert(exec_view@[a].id != exec_view@[b].id);
    }
    Ok(m)
}

/// The matrix cost of a pairing is its total dissimilarity.
proof fn lemma_weights_cost(w: Seq<i64>, expected: Seq<Droplet>, observed: Seq<Blob>, p: Seq<usize>)
    requires
        expected.len() == observed.len(),
        p.len() <= expected.len(),
        forall|i: int| 0 <= i < p.len() ==> #[trigger] p[i] < expected.len(),
        forall|i: int, j: int|
            0 <= i < expected.len() && 0 <= j < expected.len() ==> #[trigger] w[i * expected.len() + j]
                == similarity(observed[j], expected[i]),
    ensures
        assignment_cost(w, expected.len() as int, p) == views_cost(expected, observed, p),
    decreases p.len(),
{
    if p.len() > 0 {
        let q = p.drop_last();
        assert forall|i: int| 0 <= i < q.len() implies #[trigger] q[i] < expected.len() by {
            assert(q[i] == p[i]);
        }
        lemma_weights_cost(w, expected, observed, q);
        assert(p[p.len() - 1] < expected.len());
        let _ = w[(p.len() - 1) * expected.len() + p.last()];
    }
}

/// When every pair but the `k`-th shows no dissimilarity, the total is that
/// of pair `k` (zero if `p` has no pair `k`).
proof fn lemma_cost_except(expected: Seq<Droplet>, observed: Seq<Blob>, p: Seq<usize>, k: int)
    requires
        p.len() <= expected.len(),
        forall|i: int| 0 <= i < p.len() ==> #[trigger] p[i] < observed.len(),
        forall|i: int| 0 <= i < p.len() && i != k ==> similarity(observed[#[trigger] p[i] as int], expected[i]) == 0,
    ensures
        views_cost(expected, observed, p) == if 0 <= k < p.len() {
            similarity(observed[p[k] as int], expected[k])
        } else {
            0
        },
    decreases p.len(),
{
    if p.len() > 0 {
        let q = p.drop_last();
        assert forall|i: int| 0 <= i < q.len() implies #[trigger] q[i] < observed.len() by {
            assert(q[i] == p[i]);
        }
        assert forall|i: int| 0 <= i < q.len() && i != k implies similarity(observed[#[trigger] q[i] as int], expected[i]) == 0 by {
            assert(q[i] == p[i]);
        }
        lemma_cost_except(expected, observed, q, k);
        if 0 <= k < q.len() {
            assert(q[k] == p[k]);
        }
    }
}

/// A total dissimilarity is never negative, and is zero only where every
/// pair shows none.
proof fn lemma_cost_zero(expected: Seq<Droplet>, observed: Seq<Blob>, p: Seq<usize>)
    requires
        p.len() <= expected.len(),
        forall|i: int| 0 <= i < p.len() ==> #[trigger] p[i] < observed.len(),
    ensures
        views_cost(expected, observed, p) >= 0,
        views_cost(expected, observed, p) == 0 ==> forall|i: int|
            0 <= i < p.len() ==> similarity(observed[#[trigger] p[i] as int], expected[i]) == 0,
    decreases p.len(),
{
    if p.len() > 0 {
        let q = p.drop_last();
        assert forall|i: int| 0 <= i < q.len() implies #[trigger] q[i] < observed.len() by {
            assert(q[i] == p[i]);
        }
        lemma_cost_zero(expected, observed, q);
        if views_cost(expected, observed, p) == 0 {
            assert forall|i: int| 0 <= i < p.len() implies similarity(observed[#[trigger] p[i] as int], expected[i]) == 0 by {
                if i < q.len() {
                    assert(q[i] == p[i]);
                }
            }
        }
    }
}

/// No dissimilarity means the blob shows the droplet's exact state.
proof fn lemma_similarity_zero(blob: Blob, droplet: Droplet)
    ensures
        similarity(blob, droplet) >= 0,
        similarity(blob, droplet) == 0 <==> same_state(droplet, blob),
{
    if similarity(blob, droplet) == 0 {
        assert(blob.location == droplet.location);
        assert(blob.dimensions == droplet.dimensions);
    }
}

/// The pairing of row `i` to column `i` for each of `n` rows.
pub open spec fn identity_assignment(n: nat) -> Seq<usize> {
    Seq::new(n, |i: int| i as usize)
}

proof fn lemma_identity_is_assignment(n: nat)
    requires
        n <= MAX_VIEW_SIZE,
    ensures
        is_assignment(identity_assignment(n), n as int),
{
}

/// When the observed blobs show exactly the states of the expected droplets
/// under some one-to-one correspondence `s`, reconciliation gives every
/// droplet's id with the blob that `s` pairs it with.
pub proof fn lemma_reconcile_permuted(
    expected: Seq<Droplet>,
    observed: Seq<Blob>,
    s: Seq<usize>,
    m: Seq<(DropletId, Blob)>,
)
    requires
        expected.len() == observed.len(),
        is_assignment(s, expected.len() as int),
        forall|i: int| 0 <= i < expected.len() ==> same_state(#[trigger] expected[i], observed[s[i] as int]),
        reconciled(expected, observed, m),
    ensures
        m.len() == expected.len(),
        forall|i: int| 0 <= i < m.len() ==> #[trigger] m[i] == (expected[i].id, observed[s[i] as int]),
{
    let p = choose|p: Seq<usize>| #[trigger] optimal_assignment(expected, observed, p) && matched_by(expected, observed, m, p);
    assert forall|i: int| 0 <= i < s.len() && i != -1 implies similarity(observed[#[trigger] s[i] as int], expected[i]) == 0 by {
        lemma_similarity_zero(observed[s[i] as int], expected[i]);
    }
    lemma_cost_except(expected, observed, s, -1);
    lemma_cost_zero(expected, observed, p);
    assert forall|i: int| 0 <= i < m.len() implies #[trigger] m[i] == (expected[i].id, observed[s[i] as int]) by {
        assert(similarity(observed[p[i] as int], expected[i]) == 0);
        lemma_similarity_zero(observed[p[i] as int], expected[i]);
        assert(same_state(expected[i], observed[s[i] as int]));
    }
}

/// A total dissimilarity is at least that of any one of its pairs.
proof fn lemma_cost_ge_term(expected: Seq<Droplet>, observed: Seq<Blob>, p: Seq<usize>, i: int)
    requires
        p.len() <= expected.len(),
        forall|a: int| 0 <= a < p.len() ==> #[trigger] p[a] < observed.len(),
        0 <= i < p.len(),
    ensures
        views_cost(expected, observed, p) >= similarity(observed[p[i] as int], expected[i]),
    decreases p.len(),
{
    let q = p.drop_last();
    assert forall|a: int| 0 <= a < q.len() implies #[trigger] q[a] < observed.len() by {
        assert(q[a] == p[a]);
    }
    lemma_cost_zero(expected, observed, q);
    lemma_similarity_zero(observed[p.last() as int], expected[p.len() - 1]);
    if i < q.len() {
        lemma_cost_ge_term(expected, observed, q, i);
        assert(q[i] == p[i]);
    }
}

/// Some row of `s` is given column `c`.
pub open spec fn hits(s: Seq<usize>, c: int) -> bool {
    exists|j: int| 0 <= j < s.len() && s[j] == c
}

/// The blob that shows exactly the state of `d`.
pub open spec fn blob_of(d: Droplet) -> Blob {
    Blob { location: d.location, dimensions: d.dimensions, volume: d.volume }
}

/// When, under a one-to-one correspondence `s`, every droplet but the `k`-th
/// is observed exactly as expected, and droplet `k` is observed with a
/// dissimilarity below that between any two different expected droplets,
/// reconciliation recovers every correspondence of `s`.
pub proof fn lemma_reconcile_perturbed(
    expected: Seq<Droplet>,
    observed: Seq<Blob>,
    s: Seq<usize>,
    k: int,
    m: Seq<(DropletId, Blob)>,
)
    requires
        expected.len() == observed.len(),
        is_assignment(s, expected.len() as int),
        forall|c: int| 0 <= c < expected.len() ==> #[trigger] hits(s, c),
        0 <= k < expected.len(),
        forall|i: int| 0 <= i < expected.len() && i != k ==> same_state(#[trigger] expected[i], observed[s[i] as int]),
        forall|i: int, j: int|
            0 <= i < expected.len() && 0 <= j < expected.len() && i != j ==> similarity(observed[s[k] as int], expected[k])
                < similarity(blob_of(#[trigger] expected[j]), #[trigger] expected[i]),
        reconciled(expected, observed, m),
    ensures
        m.len() == expected.len(),
        forall|i: int| 0 <= i < m.len() ==> #[trigger] m[i] == (expected[i].id, observed[s[i] as int]),
{
    let n = expected.len() as int;
    let p = choose|p: Seq<usize>| #[trigger] optimal_assignment(expected, observed, p) && matched_by(expected, observed, m, p);
    let delta = similarity(observed[s[k] as int], expected[k]);
    assert forall|i: int| 0 <= i < s.len() && i != k implies similarity(observed[#[trigger] s[i] as int], expected[i]) == 0 by {
        lemma_similarity_zero(observed[s[i] as int], expected[i]);
    }
    lemma_cost_except(expected, observed, s, k);
    assert(views_cost(expected, observed, p) <= delta);
    assert forall|i: int| 0 <= i < n implies p[i] == s[i] by {
        if p[i] != s[i] {
            assert(hits(s, p[i] as int));
            let j = choose|j: int| 0 <= j < n && #[trigger] s[j] == p[i] as int;
            assert(j != i);
            assert(p[k] < n);
            assert(hits(s, p[k] as int));
            let j2 = choose|j2: int| 0 <= j2 < n && #[trigger] s[j2] == p[k] as int;
            if j == k {
                assert(i != k);
                assert(p[k] != p[i]);
                assert(j2 != k);
            }
            let t = if j != k { i } else { k };
            let jt = if j != k { j } else { j2 };
            assert(s[jt] == p[t]);
            assert(jt != t && jt != k);
            assert(same_state(expected[jt], observed[s[jt] as int]));
            assert(observed[p[t] as int] == blob_of(expected[jt]));
            assert(similarity(blob_of(expected[jt]), expected[t]) > delta);
            lemma_cost_ge_term(expected, observed, p, t);
            assert(false);
        }
    }
}

/// Exchanging the blobs of two droplets in a least-cost pairing never lowers
/// the total dissimilarity.
pub proof fn lemma_swap_no_gain(expected: Seq<Droplet>, observed: Seq<Blob>, p: Seq<usize>, i: int, j: int)
    requires
        optimal_assignment(expected, observed, p),
        0 <= i < p.len(),
        0 <= j < p.len(),
    ensures
        views_cost(expected, observed, p) <= views_cost(expected, observed, p.update(i, p[j]).update(j, p[i])),
{
    let q = p.update(i, p[j]).update(j, p[i]);
    let n = expected.len() as int;
    assert forall|a: int| 0 <= a < n implies #[trigger] q[a] < n by {
        if a != i && a != j {
            assert(q[a] == p[a]);
        }
    }
    assert forall|a: int, b: int| 0 <= a < b < n implies #[trigger] q[a] != #[trigger] q[b] by {
        if i != j {
            if a != i && a != j {
                assert(q[a] == p[a]);
            }
            if b != i && b != j {
                assert(q[b] == p[b]);
            }
        } else {
            assert(q[a] == p[a]);
            assert(q[b] == p[b]);
        }
    }
    assert(is_assignment(q, n));
}

/// When every droplet but the `k`-th is observed exactly where and as it was
/// expected, a least-cost pairing costs no more than the dissimilarity of
/// droplet `k` and its own blob.
pub proof fn lemma_perturbed_bound(expected: Seq<Droplet>, observed: Seq<Blob>, p: Seq<usize>, k: int)
    requires
        optimal_assignment(expected, observed, p),
        expected.len() <= MAX_VIEW_SIZE,
        0 <= k < expected.len(),
        forall|i: int| 0 <= i < expected.len() && i != k ==> same_state(#[trigger] expected[i], observed[i]),
    ensures
        views_cost(expected, observed, p) <= similarity(observed[k], expected[k]),
{
    let n = expected.len();
    let id = identity_assignment(n);
    lemma_identity_is_assignment(n);
    assert forall|i: int| 0 <= i < id.len() && i != k implies similarity(observed[#[trigger] id[i] as int], expected[i]) == 0 by {
        lemma_similarity_zero(observed[i], expected[i]);
    }
    lemma_cost_except(expected, observed, id, k);
}

} // verus!

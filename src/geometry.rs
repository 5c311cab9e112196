//! Squared Euclidean distance over bounded integer coordinates.
use vstd::prelude::*;

verus! {

/// Largest magnitude a coordinate may have.
pub const COORD_LIMIT: i64 = 16_777_216;

/// Largest number of dimensions a point may have.
pub const MAX_DIM: usize = 1024;

/// Every coordinate of `a` lies in `[-COORD_LIMIT, COORD_LIMIT]`.
pub open spec fn bounded(a: Seq<i64>) -> bool {
    forall|d: int| 0 <= d < a.len() ==> -COORD_LIMIT <= #[trigger] a[d] <= COORD_LIMIT
}

/// Sum of squared coordinate differences over the first `n` dimensions.
pub open spec fn sq_dist_upto(a: Seq<i64>, b: Seq<i64>, n: nat) -> int
    decreases n,
{
    if n == 0 {
        0
    } else {
        sq_dist_upto(a, b, (n - 1) as nat) + (a[n - 1] - b[n - 1]) * (a[n - 1] - b[n - 1])
    }
}

/// Squared Euclidean distance between two points of equal dimension.
pub open spec fn sq_dist(a: Seq<i64>, b: Seq<i64>) -> int {
    sq_dist_upto(a, b, a.len())
}

/// Bound on a distance: each dimension adds at most `(2 * COORD_LIMIT)^2 = 2^50`.
pub proof fn lemma_sq_dist_bounds(a: Seq<i64>, b: Seq<i64>, n: nat)
    requires
        n <= a.len(),
        n <= b.len(),
        bounded(a),
        bounded(b),
    ensures
        0 <= sq_dist_upto(a, b, n) <= n * 0x4_0000_0000_0000,
    decreases n,
{
    if n > 0 {
        lemma_sq_dist_bounds(a, b, (n - 1) as nat);
        let x = a[n - 1] - b[n - 1];
        assert(-COORD_LIMIT <= a[n - 1] <= COORD_LIMIT);
        assert(-COORD_LIMIT <= b[n - 1] <= COORD_LIMIT);
        assert(0 <= x * x <= 0x4_0000_0000_0000) by (nonlinear_arith)
            requires
                -0x200_0000 <= x <= 0x200_0000,
        ;
    }
}

/// The squared Euclidean distance between `a` and `b`.
pub fn squared_distance(a: &Vec<i64>, b: &Vec<i64>) -> (r: u64)
    requires
        a.len() == b.len(),
        a.len() <= MAX_DIM,
        bounded(a@),
        bounded(b@),
    ensures
        r == sq_dist(a@, b@),
{
    let mut acc: u64 = 0;
    let mut i: usize = 0;
    while i < a.len()
        invariant
            i <= a.len() == b.len() <= MAX_DIM,
            bounded(a@),
            bounded(b@),
            acc == sq_dist_upto(a@, b@, i as nat),
        decreases a.len() - i,
    {
        proof {
            lemma_sq_dist_bounds(a@, b@, (i + 1) as nat);
        }
        proof {
            assert(-COORD_LIMIT <= a@[i as int] <= COORD_LIMIT);
            assert(-COORD_LIMIT <= b@[i as int] <= COORD_LIMIT);
        }
        let x: i64 = a[i] - b[i];
        proof {
            assert(0 <= x * x <= 0x4_0000_0000_0000) by (nonlinear_arith)
                requires
                    -0x200_0000 <= x <= 0x200_0000,
            ;
        }
        let sq: u64 = (x as i128 * x as i128) as u64;
        acc = acc + sq;
        i = i + 1;
    }
    acc
}

} // verus!

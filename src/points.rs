//! The immutable input table: one id and one coordinate vector per row.
use vstd::prelude::*;
use crate::ClusterError;
use crate::geometry::{bounded, COORD_LIMIT, MAX_DIM};

verus! {

/// One input row.
#[derive(Clone, Debug)]
pub struct Point {
    pub id: u64,
    pub coords: Vec<i64>,
}

/// The rows of the input table, in table order.
pub struct PointSet {
    pub points: Vec<Point>,
    pub dim: usize,
}

/// Every row has `dim` coordinates, all within range.
pub open spec fn rows_fit(rows: Seq<Point>, dim: nat) -> bool {
    forall|i: int|
        0 <= i < rows.len() ==> (#[trigger] rows[i]).coords@.len() == dim && bounded(
            rows[i].coords@,
        )
}

/// No id occurs twice.
pub open spec fn ids_unique(rows: Seq<Point>) -> bool {
    forall|i: int, j: int|
        0 <= i < j < rows.len() ==> (#[trigger] rows[i]).id != (#[trigger] rows[j]).id
}

impl PointSet {
    /// The coordinates of each row.
    pub open spec fn coords(&self) -> Seq<Seq<i64>> {
        self.points@.map_values(|p: Point| p.coords@)
    }

    /// The id of each row.
    pub open spec fn ids(&self) -> Seq<u64> {
        self.points@.map_values(|p: Point| p.id)
    }

    pub open spec fn wf(&self) -> bool {
        &&& self.points@.len() > 0
        &&& 1 <= self.dim <= MAX_DIM
        &&& rows_fit(self.points@, self.dim as nat)
        &&& ids_unique(self.points@)
    }

    /// Builds the point set of `points`, whose dimension is that of the first row.
    pub fn new(points: Vec<Point>) -> (r: Result<PointSet, ClusterError>)
        ensures
            match r {
                Ok(ps) => ps.wf() && ps.points@ == points@,
                Err(e) => e == ClusterError::MalformedInput,
            },
            r is Err <==> !(points@.len() > 0 && 1 <= points@[0].coords@.len() <= MAX_DIM
                && rows_fit(points@, points@[0].coords@.len()) && ids_unique(points@)),
    {
        if points.len() == 0 {
            return Err(ClusterError::MalformedInput);
        }
        let dim = points[0].coords.len();
        if dim == 0 || dim > MAX_DIM {
            return Err(ClusterError::MalformedInput);
        }
        let mut i: usize = 0;
        while i < points.len()
            invariant
                0 <= i <= points.len(),
                dim == points@[0].coords@.len(),
                rows_fit(points@.subrange(0, i as int), dim as nat),
                forall|a: int, b: int| 0 <= a < b < i ==> points@[a].id != points@[b].id,
            decreases points.len() - i,
        {
            let p = &points[i];
            if p.coords.len() != dim {
                return Err(ClusterError::MalformedInput);
            }
            let mut d: usize = 0;
            while d < dim
                invariant
                    d <= dim == p.coords@.len(),
                    i < points.len(),
                    p == points@[i as int],
                    forall|e: int| 0 <= e < d ==> -COORD_LIMIT <= #[trigger] p.coords@[e] <= COORD_LIMIT,
                decreases dim - d,
            {
                if p.coords[d] < -COORD_LIMIT || p.coords[d] > COORD_LIMIT {
                    assert(!(-COORD_LIMIT <= points@[i as int].coords@[d as int] <= COORD_LIMIT));
                    assert(!bounded(points@[i as int].coords@));
                    return Err(ClusterError::MalformedInput);
                }
                d = d + 1;
            }
            let mut j: usize = 0;
            while j < i
                invariant
                    j <= i < points.len(),
                    p == points@[i as int],
                    forall|a: int| 0 <= a < j ==> points@[a].id != p.id,
                decreases i - j,
            {
                if points[j].id == p.id {
                    assert(points@[j as int].id == points@[i as int].id);
                    return Err(ClusterError::MalformedInput);
                }
                j = j + 1;
            }
            proof {
                assert forall|a: int| 0 <= a < i + 1 implies (#[trigger] points@.subrange(0, i + 1)[a]).coords@.len() == dim
                    && bounded(points@.subrange(0, i + 1)[a].coords@) by {
                    if a < i {
                        assert(points@.subrange(0, i as int)[a] == points@[a]);
                    }
                }
            }
            i = i + 1;
        }
        assert(points@.subrange(0, points@.len() as int) =~= points@);
        Ok(PointSet { points, dim })
    }

    /// Number of rows.
    pub fn len(&self) -> (r: usize)
        ensures
            r == self.points@.len(),
    {
        self.points.len()
    }

    /// A copy of the point set.
    pub fn duplicate(&self) -> (r: PointSet)
        requires
            self.wf(),
        ensures
            r.wf(),
            r.points@.len() == self.points@.len(),
            r.coords() == self.coords(),
            r.ids() == self.ids(),
            r.dim == self.dim,
    {
        let mut points: Vec<Point> = Vec::new();
        let mut i: usize = 0;
        while i < self.points.len()
            invariant
                self.wf(),
                i <= self.points.len(),
                points@.len() == i,
                forall|a: int| 0 <= a < i ==> (#[trigger] points@[a]).id == self.points@[a].id
                    && points@[a].coords@ == self.points@[a].coords@,
            decreases self.points.len() - i,
        {
            let p = &self.points[i];
            points.push(Point { id: p.id, coords: p.coords.clone() });
            i = i + 1;
        }
        let r = PointSet { points, dim: self.dim };
        assert(r.coords() =~= self.coords());
        assert(r.ids() =~= self.ids());
        assert(rows_fit(r.points@, r.dim as nat)) by {
            assert forall|i: int| 0 <= i < r.points@.len() implies (#[trigger] r.points@[i]).coords@.len() == r.dim
                && bounded(r.points@[i].coords@) by {
                assert(self.points@[i].coords@.len() == self.dim && bounded(self.points@[i].coords@));
            }
        }
        assert(ids_unique(r.points@)) by {
            assert forall|i: int, j: int| 0 <= i < j < r.points@.len() implies (#[trigger] r.points@[i]).id != (#[trigger] r.points@[j]).id by {
                assert(self.points@[i].id != self.points@[j].id);
            }
        }
        r
    }
}

} // verus!

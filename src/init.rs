//! Choice of the initial centroids: copies of chosen rows, in table order.
use vstd::prelude::*;
use crate::ClusterError;
use crate::assign::{rows_fit_dim, rows_of};
use crate::points::PointSet;
use rand::Rng;

verus! {

/// The rows of `pts` whose flag in `keep` is set, in table order.
pub open spec fn selected(pts: Seq<Seq<i64>>, keep: Seq<bool>) -> Seq<Seq<i64>>
    decreases keep.len(),
{
    if keep.len() == 0 {
        seq![]
    } else {
        let rest = selected(pts, keep.drop_last());
        if keep.last() {
            rest.push(pts[keep.len() - 1])
        } else {
            rest
        }
    }
}

/// Flags the rows whose id is among `ids`.
pub open spec fn id_mask(row_ids: Seq<u64>, ids: Seq<u64>) -> Seq<bool> {
    Seq::new(row_ids.len(), |i: int| ids.contains(row_ids[i]))
}

/// Flags the rows whose position is among `positions`.
pub open spec fn position_mask(n: nat, positions: Seq<usize>) -> Seq<bool> {
    Seq::new(n, |i: int| positions.contains(i as usize))
}

/// `ids` are `k` distinct ids, each the id of some row.
pub open spec fn seeds_valid(row_ids: Seq<u64>, ids: Seq<u64>, k: nat) -> bool {
    &&& ids.len() == k
    &&& forall|a: int, b: int| 0 <= a < b < ids.len() ==> ids[a] != ids[b]
    &&& forall|a: int| 0 <= a < ids.len() ==> row_ids.contains(#[trigger] ids[a])
}

/// `positions` are `k` distinct row positions below `n`.
pub open spec fn positions_valid(positions: Seq<usize>, n: nat, k: nat) -> bool {
    &&& positions.len() == k
    &&& forall|a: int, b: int| 0 <= a < b < positions.len() ==> positions[a] != positions[b]
    &&& forall|a: int| 0 <= a < positions.len() ==> #[trigger] positions[a] < n
}

pub proof fn lemma_selected(pts: Seq<Seq<i64>>, keep: Seq<bool>, dim: nat)
    requires
        keep.len() <= pts.len(),
        rows_fit_dim(pts, dim),
    ensures
        rows_fit_dim(selected(pts, keep), dim),
        selected(pts, keep).len() <= keep.len(),
        (exists|i: int| 0 <= i < keep.len() && keep[i]) ==> selected(pts, keep).len() > 0,
    decreases keep.len(),
{
    if keep.len() > 0 {
        let rest = keep.drop_last();
        lemma_selected(pts, rest, dim);
        if !keep.last() {
            if exists|i: int| 0 <= i < keep.len() && keep[i] {
                let i = choose|i: int| 0 <= i < keep.len() && keep[i];
                assert(rest[i]);
            }
        }
        assert(pts[keep.len() - 1].len() == dim);
    }
}

/// The images of the flagged rows, in table order.
pub open spec fn kept_images<A>(keep: Seq<bool>, img: Seq<A>) -> Seq<A>
    decreases keep.len(),
{
    if keep.len() == 0 {
        seq![]
    } else {
        let rest = kept_images(keep.drop_last(), img);
        if keep.last() {
            rest.push(img[keep.len() - 1])
        } else {
            rest
        }
    }
}

/// `x` is the image of some flagged row.
pub open spec fn image_of_kept<A>(keep: Seq<bool>, img: Seq<A>, x: A) -> bool {
    exists|i: int| 0 <= i < keep.len() && keep[i] && img[i] == x
}

proof fn lemma_kept_images<A>(pts: Seq<Seq<i64>>, keep: Seq<bool>, img: Seq<A>)
    requires
        keep.len() <= img.len(),
        forall|i: int, j: int| 0 <= i < j < keep.len() && keep[i] && keep[j] ==> img[i] != img[j],
    ensures
        kept_images(keep, img).len() == selected(pts, keep).len(),
        kept_images(keep, img).no_duplicates(),
        forall|t: int| 0 <= t < kept_images(keep, img).len() ==> image_of_kept(keep, img, #[trigger] kept_images(keep, img)[t]),
    decreases keep.len(),
{
    if keep.len() > 0 {
        let rest = keep.drop_last();
        lemma_kept_images(pts, rest, img);
        let r = kept_images(rest, img);
        let s = kept_images(keep, img);
        let n = keep.len() - 1;
        assert forall|t: int| 0 <= t < r.len() implies #[trigger] image_of_kept(keep, img, r[t]) && (keep[n] ==> r[t] != img[n]) by {
            assert(image_of_kept(rest, img, r[t]));
            let i = choose|i: int| 0 <= i < rest.len() && rest[i] && img[i] == r[t];
            assert(keep[i]);
        }
        if keep.last() {
            assert forall|a: int, b: int| 0 <= a < b < s.len() implies s[a] != s[b] by {
                if b == s.len() - 1 {
                    assert(s[a] == r[a]);
                    assert(image_of_kept(keep, img, r[a]));
                } else {
                    assert(s[a] == r[a] && s[b] == r[b]);
                }
            }
            assert forall|t: int| 0 <= t < s.len() implies image_of_kept(keep, img, #[trigger] s[t]) by {
                if t < r.len() {
                    assert(s[t] == r[t]);
                    assert(image_of_kept(keep, img, r[t]));
                } else {
                    assert(keep[n] && img[n] == s[t]);
                }
            }
        } else {
            assert forall|t: int| 0 <= t < s.len() implies image_of_kept(keep, img, #[trigger] s[t]) by {
                assert(s[t] == r[t]);
                assert(image_of_kept(keep, img, r[t]));
            }
        }
    }
}

/// When the flagged rows map one to one, through `img`, into the values of
/// `target`, at most `target.len()` rows are flagged.
pub proof fn lemma_selected_at_most<A>(pts: Seq<Seq<i64>>, keep: Seq<bool>, img: Seq<A>, target: Seq<A>)
    requires
        keep.len() <= img.len(),
        forall|i: int| 0 <= i < keep.len() && keep[i] ==> target.contains(#[trigger] img[i]),
        forall|i: int, j: int| 0 <= i < j < keep.len() && keep[i] && keep[j] ==> img[i] != img[j],
    ensures
        selected(pts, keep).len() <= target.len(),
{
    lemma_kept_images(pts, keep, img);
    let s = kept_images(keep, img);
    s.unique_seq_to_set();
    target.lemma_cardinality_of_set();
    assert(s.to_set().subset_of(target.to_set())) by {
        assert forall|x: A| s.to_set().contains(x) implies target.to_set().contains(x) by {
            let t = choose|t: int| 0 <= t < s.len() && s[t] == x;
            assert(image_of_kept(keep, img, s[t]));
            let i = choose|i: int| 0 <= i < keep.len() && keep[i] && img[i] == s[t];
            assert(target.contains(img[i]));
        }
    }
    vstd::set_lib::lemma_len_subset(s.to_set(), target.to_set());
}

/// When, besides, every value of `target` is the image of a flagged row and
/// `target` repeats no value, exactly `target.len()` rows are flagged.
pub proof fn lemma_selected_exactly<A>(pts: Seq<Seq<i64>>, keep: Seq<bool>, img: Seq<A>, target: Seq<A>)
    requires
        keep.len() <= img.len(),
        forall|i: int| 0 <= i < keep.len() && keep[i] ==> target.contains(#[trigger] img[i]),
        forall|i: int, j: int| 0 <= i < j < keep.len() && keep[i] && keep[j] ==> img[i] != img[j],
        forall|t: int| 0 <= t < target.len() ==> image_of_kept(keep, img, #[trigger] target[t]),
        target.no_duplicates(),
    ensures
        selected(pts, keep).len() == target.len(),
{
    lemma_selected_at_most(pts, keep, img, target);
    lemma_kept_images(pts, keep, img);
    let s = kept_images(keep, img);
    s.unique_seq_to_set();
    target.unique_seq_to_set();
    assert(target.to_set().subset_of(s.to_set())) by {
        assert forall|x: A| target.to_set().contains(x) implies s.to_set().contains(x) by {
            let t = choose|t: int| 0 <= t < target.len() && target[t] == x;
            assert(image_of_kept(keep, img, target[t]));
            let i = choose|i: int| 0 <= i < keep.len() && keep[i] && img[i] == target[t];
            lemma_kept_image_present(keep, img, i);
        }
    }
    vstd::set_lib::lemma_len_subset(target.to_set(), s.to_set());
}

proof fn lemma_kept_image_present<A>(keep: Seq<bool>, img: Seq<A>, i: int)
    requires
        0 <= i < keep.len(),
        keep[i],
    ensures
        kept_images(keep, img).contains(img[i]),
    decreases keep.len(),
{
    let rest = keep.drop_last();
    let s = kept_images(keep, img);
    if i == keep.len() - 1 {
        assert(s[s.len() - 1] == img[i]);
    } else {
        assert(rest[i]);
        lemma_kept_image_present(rest, img, i);
        let r = kept_images(rest, img);
        let t = choose|t: int| 0 <= t < r.len() && r[t] == img[i];
        assert(s[t] == r[t]);
    }
}

/// Relies on `rand::Rng::gen_range` of the thread-local generator: a value in `0..bound`.
#[verifier::external_body]
fn random_below(bound: usize) -> (r: usize)
    requires
        bound > 0,
    ensures
        r < bound,
{
    rand::thread_rng().gen_range(0..bound)
}

fn contains_u64(v: &Vec<u64>, x: u64) -> (r: bool)
    ensures
        r == v@.contains(x),
{
    let mut i: usize = 0;
    while i < v.len()
        invariant
            i <= v.len(),
            forall|a: int| 0 <= a < i ==> v@[a] != x,
        decreases v.len() - i,
    {
        if v[i] == x {
            return true;
        }
        i = i + 1;
    }
    false
}

fn contains_usize(v: &Vec<usize>, x: usize) -> (r: bool)
    ensures
        r == v@.contains(x),
{
    let mut i: usize = 0;
    while i < v.len()
        invariant
            i <= v.len(),
            forall|a: int| 0 <= a < i ==> v@[a] != x,
        decreases v.len() - i,
    {
        if v[i] == x {
            return true;
        }
        i = i + 1;
    }
    false
}

/// Copies of the rows flagged in `keep`, in table order.
pub fn rows_where(ps: &PointSet, keep: &Vec<bool>) -> (r: Vec<Vec<i64>>)
    requires
        ps.wf(),
        keep.len() == ps.points.len(),
    ensures
        rows_of(r@) == selected(ps.coords(), keep@),
        rows_fit_dim(rows_of(r@), ps.dim as nat),
        (exists|i: int| 0 <= i < keep.len() && keep@[i]) ==> r.len() > 0,
{
    let ghost pts = ps.coords();
    proof {
        assert forall|i: int| 0 <= i < pts.len() implies (#[trigger] pts[i]).len() == ps.dim
            && crate::geometry::bounded(pts[i]) by {
            assert(pts[i] == ps.points@[i].coords@);
        }
    }
    let mut r: Vec<Vec<i64>> = Vec::new();
    let mut i: usize = 0;
    while i < keep.len()
        invariant
            i <= keep.len() == ps.points.len(),
            pts == ps.coords(),
            rows_of(r@) == selected(pts, keep@.subrange(0, i as int)),
        decreases keep.len() - i,
    {
        assert(keep@.subrange(0, i + 1).drop_last() =~= keep@.subrange(0, i as int));
        if keep[i] {
            let ghost before = r@;
            let row = ps.points[i].coords.clone();
            r.push(row);
            assert(pts[i as int] == ps.points@[i as int].coords@);
            assert(rows_of(r@) =~= rows_of(before).push(row@));
        }
        i = i + 1;
    }
    assert(keep@.subrange(0, keep.len() as int) =~= keep@);
    proof {
        lemma_selected(pts, keep@, ps.dim as nat);
    }
    r
}

/// The centroids copied from the rows whose ids are `ids`, in table order;
/// `InvalidSeed` unless `ids` are `k` distinct ids of rows.
pub fn seeded_centroids(ps: &PointSet, ids: &Vec<u64>, k: usize) -> (r: Result<Vec<Vec<i64>>, ClusterError>)
    requires
        ps.wf(),
    ensures
        r is Ok <==> seeds_valid(ps.ids(), ids@, k as nat),
        r is Err ==> r == Err::<Vec<Vec<i64>>, ClusterError>(ClusterError::InvalidSeed),
        r matches Ok(cs) ==> rows_of(cs@) == selected(ps.coords(), id_mask(ps.ids(), ids@)),
        r matches Ok(cs) ==> rows_fit_dim(rows_of(cs@), ps.dim as nat) && (k > 0 ==> cs.len() > 0) && cs.len() == k,
{
    if ids.len() != k {
        return Err(ClusterError::InvalidSeed);
    }
    let mut a: usize = 0;
    while a < ids.len()
        invariant
            ps.wf(),
            a <= ids.len() == k,
            forall|x: int, y: int| 0 <= x < y < ids.len() && x < a ==> ids@[x] != ids@[y],
            forall|x: int| 0 <= x < a ==> ps.ids().contains(#[trigger] ids@[x]),
        decreases ids.len() - a,
    {
        let mut b: usize = a + 1;
        while b < ids.len()
            invariant
                a < b <= ids.len(),
                forall|y: int| a < y < b ==> ids@[a as int] != ids@[y],
            decreases ids.len() - b,
        {
            if ids[a] == ids[b] {
                return Err(ClusterError::InvalidSeed);
            }
            b = b + 1;
        }
        let mut found = false;
        let mut i: usize = 0;
        while i < ps.points.len()
            invariant
                i <= ps.points.len(),
                a < ids.len(),
                found ==> ps.ids().contains(ids@[a as int]),
                !found ==> forall|j: int| 0 <= j < i ==> ps.ids()[j] != ids@[a as int],
            decreases ps.points.len() - i,
        {
            if ps.points[i].id == ids[a] {
                assert(ps.ids()[i as int] == ids@[a as int]);
                found = true;
            }
            i = i + 1;
        }
        if !found {
            assert(!ps.ids().contains(ids@[a as int]));
            return Err(ClusterError::InvalidSeed);
        }
        a = a + 1;
    }
    let mut keep: Vec<bool> = Vec::new();
    let mut i: usize = 0;
    while i < ps.points.len()
        invariant
            i <= ps.points.len(),
            keep@ =~= id_mask(ps.ids(), ids@).subrange(0, i as int),
        decreases ps.points.len() - i,
    {
        let c = contains_u64(ids, ps.points[i].id);
        keep.push(c);
        i = i + 1;
    }
    assert(keep@ =~= id_mask(ps.ids(), ids@));
    proof {
        assert forall|i: int, j: int| 0 <= i < j < keep@.len() && keep@[i] && keep@[j] implies ps.ids()[i] != ps.ids()[j] by {
            assert(ps.points@[i].id != ps.points@[j].id);
        }
        lemma_selected_at_most(ps.coords(), keep@, ps.ids(), ids@);
        assert forall|t: int| 0 <= t < ids@.len() implies image_of_kept(keep@, ps.ids(), #[trigger] ids@[t]) by {
            assert(ps.ids().contains(ids@[t]));
            let i = choose|i: int| 0 <= i < ps.ids().len() && ps.ids()[i] == ids@[t];
            assert(keep@[i]);
        }
        lemma_selected_exactly(ps.coords(), keep@, ps.ids(), ids@);
        if k > 0 {
            let j = choose|j: int| 0 <= j < ps.ids().len() && ps.ids()[j] == ids@[0];
            assert(ps.ids().contains(ids@[0]));
            assert(keep@[j]);
        }
    }
    Ok(rows_where(ps, &keep))
}

/// Copies of the rows at `positions`, in table order.
pub fn centroids_at(ps: &PointSet, positions: &Vec<usize>) -> (r: Vec<Vec<i64>>)
    requires
        ps.wf(),
    ensures
        rows_of(r@) == selected(ps.coords(), position_mask(ps.points@.len(), positions@)),
        rows_fit_dim(rows_of(r@), ps.dim as nat),
        (exists|a: int| 0 <= a < positions.len() && positions@[a] < ps.points.len()) ==> r.len() > 0,
        r.len() <= positions.len(),
        positions_valid(positions@, ps.points@.len(), positions@.len()) ==> r.len() == positions.len(),
{
    let mut keep: Vec<bool> = Vec::new();
    let mut i: usize = 0;
    while i < ps.points.len()
        invariant
            i <= ps.points.len(),
            keep@ =~= position_mask(ps.points@.len(), positions@).subrange(0, i as int),
        decreases ps.points.len() - i,
    {
        let c = contains_usize(positions, i);
        keep.push(c);
        i = i + 1;
    }
    assert(keep@ =~= position_mask(ps.points@.len(), positions@));
    proof {
        let img = Seq::new(keep@.len(), |i: int| i as usize);
        assert forall|i: int| 0 <= i < keep@.len() && keep@[i] implies positions@.contains(#[trigger] img[i]) by {
            assert(img[i] == i as usize);
        }
        lemma_selected_at_most(ps.coords(), keep@, img, positions@);
        if positions_valid(positions@, ps.points@.len(), positions@.len()) {
            assert forall|t: int| 0 <= t < positions@.len() implies image_of_kept(keep@, img, #[trigger] positions@[t]) by {
                let i = positions@[t] as int;
                assert(keep@[i] && img[i] == positions@[t]);
            }
            lemma_selected_exactly(ps.coords(), keep@, img, positions@);
        }
        if exists|a: int| 0 <= a < positions.len() && positions@[a] < ps.points.len() {
            let a = choose|a: int| 0 <= a < positions.len() && positions@[a] < ps.points.len();
            assert(keep@[positions@[a] as int]);
        }
    }
    rows_where(ps, &keep)
}

/// `k` distinct positions below `n`, drawn at random.
fn draw_positions(n: usize, k: usize) -> (r: Vec<usize>)
    requires
        k <= n,
    ensures
        positions_valid(r@, n as nat, k as nat),
{
    let mut pos: Vec<usize> = Vec::new();
    let mut i: usize = 0;
    while i < n
        invariant
            i <= n,
            pos@.len() == i,
            forall|a: int| 0 <= a < i ==> pos@[a] == a,
        decreases n - i,
    {
        pos.push(i);
        i = i + 1;
    }
    let mut i: usize = 0;
    while i < k
        invariant
            k <= n,
            i <= k,
            pos@.len() == n,
            forall|a: int, b: int| 0 <= a < b < n ==> pos@[a] != pos@[b],
            forall|a: int| 0 <= a < n ==> #[trigger] pos@[a] < n,
        decreases k - i,
    {
        let j = i + random_below(n - i);
        let ghost before = pos@;
        let t = pos[i];
        let u = pos[j];
        pos.set(i, u);
        pos.set(j, t);
        assert forall|a: int| 0 <= a < n implies #[trigger] pos@[a] < n by {
            if a == i {
                assert(pos@[a] == before[j as int]);
            } else if a == j {
                assert(pos@[a] == before[i as int]);
            } else {
                assert(pos@[a] == before[a]);
            }
        }
        i = i + 1;
    }
    let mut r: Vec<usize> = Vec::new();
    let mut i: usize = 0;
    while i < k
        invariant
            k <= n == pos@.len(),
            i <= k,
            r@ =~= pos@.subrange(0, i as int),
            forall|a: int, b: int| 0 <= a < b < n ==> pos@[a] != pos@[b],
            forall|a: int| 0 <= a < n ==> #[trigger] pos@[a] < n,
        decreases k - i,
    {
        r.push(pos[i]);
        i = i + 1;
    }
    r
}

/// The initial centroids: from the rows with ids `center_ids` where given, else
/// from `k` distinct rows drawn at random; in table order either way.
pub fn init_centers(ps: &PointSet, k: usize, center_ids: Option<Vec<u64>>) -> (r: Result<Vec<Vec<i64>>, ClusterError>)
    requires
        ps.wf(),
        k >= 1,
    ensures
        r matches Ok(cs) ==> rows_fit_dim(rows_of(cs@), ps.dim as nat) && cs.len() > 0 && cs.len() == k,
        center_ids matches Some(ids) ==> {
            &&& (r is Ok <==> seeds_valid(ps.ids(), ids@, k as nat))
            &&& r is Err ==> r == Err::<Vec<Vec<i64>>, ClusterError>(ClusterError::InvalidSeed)
            &&& r matches Ok(cs) ==> rows_of(cs@) == selected(ps.coords(), id_mask(ps.ids(), ids@))
        },
        center_ids is None ==> {
            &&& (r is Err <==> k > ps.points.len())
            &&& r is Err ==> r == Err::<Vec<Vec<i64>>, ClusterError>(ClusterError::InsufficientPoints)
            &&& r matches Ok(cs) ==> exists|p: Seq<usize>|
                positions_valid(p, ps.points@.len(), k as nat) && rows_of(cs@) == selected(
                    ps.coords(),
                    #[trigger] position_mask(ps.points@.len(), p),
                )
        },
{
    match center_ids {
        Some(ids) => seeded_centroids(ps, &ids, k),
        None => {
            if k > ps.points.len() {
                return Err(ClusterError::InsufficientPoints);
            }
            let positions = draw_positions(ps.points.len(), k);
            let cs = centroids_at(ps, &positions);
            assert(positions@[0] < ps.points.len());
            Ok(cs)
        }
    }
}

} // verus!

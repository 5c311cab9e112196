//! The partition step: points are grouped by the centroid they were given.
use vstd::prelude::*;

verus! {

/// The views of a list of clusters.
pub open spec fn clusters_of(v: Seq<Vec<usize>>) -> Seq<Seq<usize>> {
    v.map_values(|c: Vec<usize>| c@)
}

/// The positions labelled `j`, ascending.
pub open spec fn members_of(labels: Seq<usize>, j: usize) -> Seq<usize>
    decreases labels.len(),
{
    if labels.len() == 0 {
        seq![]
    } else {
        let rest = members_of(labels.drop_last(), j);
        if labels.last() == j {
            rest.push((labels.len() - 1) as usize)
        } else {
            rest
        }
    }
}

/// The labels below `m` that some position carries, ascending.
pub open spec fn kept_keys(labels: Seq<usize>, m: nat) -> Seq<usize>
    decreases m,
{
    if m == 0 {
        seq![]
    } else {
        let rest = kept_keys(labels, (m - 1) as nat);
        if members_of(labels, (m - 1) as usize).len() > 0 {
            rest.push((m - 1) as usize)
        } else {
            rest
        }
    }
}

/// The non-empty groups of positions by label, in label order.
pub open spec fn group_spec(labels: Seq<usize>, m: nat) -> Seq<Seq<usize>> {
    kept_keys(labels, m).map_values(|j: usize| members_of(labels, j))
}

/// Some cluster holds `x`.
pub open spec fn in_some(clusters: Seq<Seq<usize>>, x: usize) -> bool {
    exists|c: int| 0 <= c < clusters.len() && #[trigger] clusters[c].contains(x)
}

/// Every position below `n` lies in exactly one cluster, once; no cluster is empty,
/// and no cluster names a position outside `0..n`.
pub open spec fn is_partition_of(clusters: Seq<Seq<usize>>, n: nat) -> bool {
    &&& forall|c: int| 0 <= c < clusters.len() ==> (#[trigger] clusters[c]).len() > 0
    &&& forall|c: int| 0 <= c < clusters.len() ==> (#[trigger] clusters[c]).no_duplicates()
    &&& forall|c: int, k: int|
        0 <= c < clusters.len() && 0 <= k < clusters[c].len() ==> #[trigger] clusters[c][k] < n
    &&& forall|x: usize| x < n ==> #[trigger] in_some(clusters, x)
    &&& forall|c1: int, c2: int, x: usize|
        0 <= c1 < clusters.len() && 0 <= c2 < clusters.len() && (#[trigger] clusters[c1].contains(x))
            && (#[trigger] clusters[c2].contains(x)) ==> c1 == c2
}

pub proof fn lemma_members_of(labels: Seq<usize>, j: usize)
    requires
        labels.len() <= usize::MAX,
    ensures
        forall|k: int|
            0 <= k < members_of(labels, j).len() ==> (#[trigger] members_of(labels, j)[k]) < labels.len()
                && labels[members_of(labels, j)[k] as int] == j,
        forall|x: usize| x < labels.len() && labels[x as int] == j ==> #[trigger] members_of(labels, j).contains(x),
        forall|a: int, b: int|
            0 <= a < b < members_of(labels, j).len() ==> (#[trigger] members_of(labels, j)[a]) < (#[trigger] members_of(
                labels,
                j,
            )[b]),
    decreases labels.len(),
{
    if labels.len() > 0 {
        let rest = labels.drop_last();
        lemma_members_of(rest, j);
        let ms = members_of(labels, j);
        assert forall|x: usize| x < labels.len() && labels[x as int] == j implies #[trigger] ms.contains(x) by {
            if x < rest.len() {
                assert(rest[x as int] == labels[x as int]);
                assert(members_of(rest, j).contains(x));
                let w = choose|w: int| 0 <= w < members_of(rest, j).len() && members_of(rest, j)[w] == x;
                assert(ms[w] == x);
            } else {
                assert(ms[ms.len() - 1] == x);
            }
        }
    }
}

pub proof fn lemma_kept_keys(labels: Seq<usize>, m: nat)
    requires
        m <= usize::MAX + 1,
    ensures
        kept_keys(labels, m).len() <= m,
        forall|k: int| 0 <= k < kept_keys(labels, m).len() ==> (#[trigger] kept_keys(labels, m)[k]) < m
            && members_of(labels, kept_keys(labels, m)[k]).len() > 0,
        forall|a: int, b: int|
            0 <= a < b < kept_keys(labels, m).len() ==> (#[trigger] kept_keys(labels, m)[a]) < (#[trigger] kept_keys(
                labels,
                m,
            )[b]),
        forall|j: usize| j < m && members_of(labels, j).len() > 0 ==> #[trigger] kept_keys(labels, m).contains(j),
    decreases m,
{
    if m > 0 {
        lemma_kept_keys(labels, (m - 1) as nat);
        let ks = kept_keys(labels, m);
        let rest = kept_keys(labels, (m - 1) as nat);
        assert forall|j: usize| j < m && members_of(labels, j).len() > 0 implies #[trigger] ks.contains(j) by {
            if j < m - 1 {
                assert(rest.contains(j));
                let w = choose|w: int| 0 <= w < rest.len() && rest[w] == j;
                assert(ks[w] == j);
            } else {
                assert(ks[ks.len() - 1] == j);
            }
        }
    }
}

/// The groups of `group_spec` partition the labelled positions.
pub proof fn lemma_group_partitions(labels: Seq<usize>, m: nat)
    requires
        labels.len() <= usize::MAX,
        m <= usize::MAX + 1,
        forall|i: int| 0 <= i < labels.len() ==> labels[i] < m,
    ensures
        is_partition_of(group_spec(labels, m), labels.len()),
        group_spec(labels, m).len() <= m,
{
    let g = group_spec(labels, m);
    let ks = kept_keys(labels, m);
    lemma_kept_keys(labels, m);
    assert forall|c: int| 0 <= c < g.len() implies (#[trigger] g[c]).len() > 0 && g[c].no_duplicates() by {
        assert(g[c] == members_of(labels, ks[c]));
        lemma_members_of(labels, ks[c]);
        assert forall|a: int, b: int| 0 <= a < g[c].len() && 0 <= b < g[c].len() && a != b implies g[c][a] != g[c][b] by {
            if a < b {
                assert(g[c][a] < g[c][b]);
            } else {
                assert(g[c][b] < g[c][a]);
            }
        }
    }
    assert forall|c: int, k: int| 0 <= c < g.len() && 0 <= k < g[c].len() implies #[trigger] g[c][k] < labels.len() by {
        lemma_members_of(labels, ks[c]);
        assert(g[c] == members_of(labels, ks[c]));
    }
    assert forall|x: usize| x < labels.len() implies #[trigger] in_some(g, x) by {
        let j = labels[x as int];
        lemma_members_of(labels, j);
        assert(members_of(labels, j).contains(x));
        assert(ks.contains(j));
        let c = choose|c: int| 0 <= c < ks.len() && ks[c] == j;
        assert(g[c] == members_of(labels, j));
    }
    assert forall|c1: int, c2: int, x: usize|
        0 <= c1 < g.len() && 0 <= c2 < g.len() && (#[trigger] g[c1].contains(x)) && (#[trigger] g[c2].contains(x))
        implies c1 == c2 by {
        lemma_members_of(labels, ks[c1]);
        lemma_members_of(labels, ks[c2]);
        assert(g[c1] == members_of(labels, ks[c1]));
        assert(g[c2] == members_of(labels, ks[c2]));
        let w1 = choose|w: int| 0 <= w < g[c1].len() && g[c1][w] == x;
        let w2 = choose|w: int| 0 <= w < g[c2].len() && g[c2][w] == x;
        assert(labels[x as int] == ks[c1]);
        assert(labels[x as int] == ks[c2]);
        if c1 < c2 {
            assert(ks[c1] < ks[c2]);
        } else if c2 < c1 {
            assert(ks[c2] < ks[c1]);
        }
    }
}

/// The positions labelled `j`, ascending.
pub fn members_with_label(labels: &Vec<usize>, j: usize) -> (r: Vec<usize>)
    ensures
        r@ == members_of(labels@, j),
{
    let mut r: Vec<usize> = Vec::new();
    let mut i: usize = 0;
    while i < labels.len()
        invariant
            i <= labels.len(),
            r@ == members_of(labels@.subrange(0, i as int), j),
        decreases labels.len() - i,
    {
        assert(labels@.subrange(0, i + 1).drop_last() =~= labels@.subrange(0, i as int));
        if labels[i] == j {
            r.push(i);
        }
        i = i + 1;
    }
    assert(labels@.subrange(0, labels.len() as int) =~= labels@);
    r
}

/// The non-empty groups of positions by label `0..m`, in label order.
pub fn group(labels: &Vec<usize>, m: usize) -> (r: Vec<Vec<usize>>)
    ensures
        clusters_of(r@) == group_spec(labels@, m as nat),
{
    let mut r: Vec<Vec<usize>> = Vec::new();
    let mut j: usize = 0;
    while j < m
        invariant
            j <= m,
            clusters_of(r@) == group_spec(labels@, j as nat),
        decreases m - j,
    {
        let ms = members_with_label(labels, j);
        let ghost before = r@;
        if ms.len() > 0 {
            r.push(ms);
            assert(clusters_of(r@) =~= clusters_of(before).push(ms@));
        }
        assert(group_spec(labels@, (j + 1) as nat) =~= clusters_of(r@));
        j = j + 1;
    }
    r
}

} // verus!

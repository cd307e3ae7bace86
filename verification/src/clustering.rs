//! Density-based clustering (DBSCAN) of notes.
//!
//! The similarity test between two embeddings is floating-point work done by
//! the caller; here each point arrives with its row of the neighbourhood
//! relation (`close_to[j]`: point `j` lies within epsilon of this one), and the
//! clustering itself is computed over that relation.

use vstd::prelude::*;

verus! {

/// Fewest neighbours a point needs to be a core point, and fewest members a
/// cluster needs to be reported.
pub const MIN_POINTS: usize = 2;

/// Where the labelling pass has put a point.
#[derive(Clone, Copy, Debug, PartialEq, Eq, Structural)]
pub enum Label {
    /// Not visited yet.
    Unvisited,
    /// Visited, with too few neighbours and no core point reaching it.
    Noise,
    /// Member of the cluster with this number.
    Cluster(usize),
}

/// One point to cluster: the note it belongs to and its row of the
/// neighbourhood relation.
#[derive(Clone, Debug)]
pub struct ClusterPoint {
    pub note_id: String,
    pub close_to: Vec<bool>,
}

/// The neighbourhood relation of `points`, row by row.
pub open spec fn relation(points: Seq<ClusterPoint>) -> Seq<Seq<bool>> {
    points.map_values(|p: ClusterPoint| p.close_to@)
}

/// Whether `j` is within epsilon of `i` (a missing entry counts as "no").
pub open spec fn adj(m: Seq<Seq<bool>>, i: int, j: int) -> bool {
    0 <= j < m[i].len() && m[i][j]
}

/// The neighbours of `i` among the points `0..k`, in increasing order; a
/// point is not its own neighbour.
pub open spec fn neighbours_below(m: Seq<Seq<bool>>, i: int, k: nat) -> Seq<usize>
    decreases k,
{
    if k == 0 {
        Seq::empty()
    } else {
        let prev = neighbours_below(m, i, (k - 1) as nat);
        if k - 1 != i && adj(m, i, k - 1) {
            prev.push((k - 1) as usize)
        } else {
            prev
        }
    }
}

/// The neighbours of `i`, in increasing order.
pub open spec fn neighbours(m: Seq<Seq<bool>>, i: int) -> Seq<usize> {
    neighbours_below(m, i, m.len())
}

/// Whether `i` has enough neighbours to grow a cluster.
pub open spec fn is_core(m: Seq<Seq<bool>>, i: int) -> bool {
    neighbours(m, i).len() >= MIN_POINTS
}

/// `seed` extended by the elements of `more` it does not hold yet, in order.
pub open spec fn add_new(seed: Seq<usize>, more: Seq<usize>) -> Seq<usize>
    decreases more.len(),
{
    if more.len() == 0 {
        seed
    } else {
        let s = add_new(seed, more.drop_last());
        if s.contains(more.last()) {
            s
        } else {
            s.push(more.last())
        }
    }
}

/// Expansion of cluster `c` from position `j` of its seed list: noise points
/// reached become border points of `c`, unvisited points join `c`, and the
/// neighbours of those that are core points are queued.
pub open spec fn expand(m: Seq<Seq<bool>>, labels: Seq<Label>, seed: Seq<usize>, j: nat, c: usize) -> Seq<Label>
    decreases m.len() - j,
{
    if j < seed.len() && j < m.len() {
        let q = seed[j as int] as int;
        if labels[q] == Label::Noise {
            expand(m, labels.update(q, Label::Cluster(c)), seed, j + 1, c)
        } else if labels[q] != Label::Unvisited {
            expand(m, labels, seed, j + 1, c)
        } else {
            let qn = neighbours(m, q);
            let next_seed = if qn.len() >= MIN_POINTS {
                add_new(seed, qn)
            } else {
                seed
            };
            expand(m, labels.update(q, Label::Cluster(c)), next_seed, j + 1, c)
        }
    } else {
        labels
    }
}

/// The labelling pass from point `i` on, with `c` clusters opened so far:
/// returns the final labels and the number of clusters.
pub open spec fn label_from(m: Seq<Seq<bool>>, labels: Seq<Label>, i: nat, c: usize) -> (Seq<Label>, usize)
    decreases m.len() - i,
{
    if i < m.len() {
        if labels[i as int] != Label::Unvisited {
            label_from(m, labels, i + 1, c)
        } else if neighbours(m, i as int).len() < MIN_POINTS {
            label_from(m, labels.update(i as int, Label::Noise), i + 1, c)
        } else {
            let grown = expand(m, labels.update(i as int, Label::Cluster(c)), neighbours(m, i as int), 0, c);
            label_from(m, grown, i + 1, (c + 1) as usize)
        }
    } else {
        (labels, c)
    }
}

/// The final labels and the number of clusters.
pub open spec fn dbscan_labels(m: Seq<Seq<bool>>) -> (Seq<Label>, usize) {
    label_from(m, Seq::new(m.len(), |k: int| Label::Unvisited), 0, 0)
}

/// The points among `0..k` labelled `c`, in increasing order.
pub open spec fn members_below(labels: Seq<Label>, c: usize, k: nat) -> Seq<usize>
    decreases k,
{
    if k == 0 {
        Seq::empty()
    } else {
        let prev = members_below(labels, c, (k - 1) as nat);
        if labels[k - 1] == Label::Cluster(c) {
            prev.push((k - 1) as usize)
        } else {
            prev
        }
    }
}

/// The points labelled `c`, in increasing order.
pub open spec fn members(labels: Seq<Label>, c: usize) -> Seq<usize> {
    members_below(labels, c, labels.len())
}

/// The groups of clusters `0..k` that have at least [`MIN_POINTS`] members,
/// in cluster order.
pub open spec fn groups_below(labels: Seq<Label>, k: nat) -> Seq<Seq<usize>>
    decreases k,
{
    if k == 0 {
        Seq::empty()
    } else {
        let prev = groups_below(labels, (k - 1) as nat);
        let g = members(labels, (k - 1) as usize);
        if g.len() >= MIN_POINTS {
            prev.push(g)
        } else {
            prev
        }
    }
}

/// The clusters DBSCAN reports over the relation `m`, as lists of point
/// indices.
pub open spec fn dbscan_clusters(m: Seq<Seq<bool>>) -> Seq<Seq<usize>> {
    let (labels, count) = dbscan_labels(m);
    groups_below(labels, count as nat)
}

/// The note ids of the points of `group`.
pub open spec fn group_note_ids(points: Seq<ClusterPoint>, group: Seq<usize>) -> Seq<Seq<char>> {
    group.map_values(|k: usize| points[k as int].note_id@)
}

/// Whether `v` is a list of strings with the given character views.
pub open spec fn strings_are(v: Seq<String>, s: Seq<Seq<char>>) -> bool {
    v.len() == s.len() && forall|k: int| 0 <= k < v.len() ==> (#[trigger] v[k])@ == s[k]
}

/// The neighbours of point `idx`, in increasing order.
pub fn region_query(points: &Vec<ClusterPoint>, idx: usize) -> (r: Vec<usize>)
    requires
        idx < points@.len(),
    ensures
        r@ == neighbours(relation(points@), idx as int),
        forall|k: int| 0 <= k < r@.len() ==> r@[k] < points@.len(),
{
    let ghost m = relation(points@);
    let n = points.len();
    let row = &points[idx].close_to;
    assert(m[idx as int] == row@);
    let mut r: Vec<usize> = Vec::new();
    let mut j: usize = 0;
    while j < n
        invariant
            j <= n == points@.len() == m.len(),
            m == relation(points@),
            m[idx as int] == row@,
            r@ == neighbours_below(m, idx as int, j as nat),
            forall|k: int| 0 <= k < r@.len() ==> r@[k] < j,
        decreases n - j,
    {
        if j != idx && j < row.len() && row[j] {
            r.push(j);
        }
        j = j + 1;
    }
    r
}

/// Whether `v` holds `x`.
fn holds(v: &Vec<usize>, x: usize) -> (b: bool)
    ensures
        b == v@.contains(x),
{
    let mut k: usize = 0;
    while k < v.len()
        invariant
            k <= v@.len(),
            forall|t: int| 0 <= t < k ==> v@[t] != x,
        decreases v@.len() - k,
    {
        if v[k] == x {
            return true;
        }
        k = k + 1;
    }
    false
}

/// A list without repeats of indices below `n` has at most `n` entries.
proof fn lemma_distinct_below_len(s: Seq<usize>, n: nat)
    requires
        s.no_duplicates(),
        forall|k: int| 0 <= k < s.len() ==> s[k] < n,
    ensures
        s.len() <= n,
    decreases n,
{
    if n == 0 {
        if s.len() > 0 {
            assert(s[0] < n);
        }
    } else {
        let top = (n - 1) as usize;
        if s.contains(top) {
            let p = choose|p: int| 0 <= p < s.len() && s[p] == top;
            let t = s.remove(p);
            assert forall|k: int| 0 <= k < t.len() implies t[k] < n - 1 by {
                if k < p {
                    assert(t[k] == s[k]);
                } else {
                    assert(t[k] == s[k + 1]);
                }
            }
            assert forall|a: int, b: int| 0 <= a < b < t.len() implies t[a] != t[b] by {
                let a2 = if a < p { a } else { a + 1 };
                let b2 = if b < p { b } else { b + 1 };
                assert(t[a] == s[a2] && t[b] == s[b2]);
            }
            lemma_distinct_below_len(t, (n - 1) as nat);
        } else {
            assert forall|k: int| 0 <= k < s.len() implies s[k] < n - 1 by {
                assert(s[k] != top);
            }
            lemma_distinct_below_len(s, (n - 1) as nat);
        }
    }
}

/// Whether `l` names no cluster numbered `c` or above.
pub open spec fn below(l: Label, c: usize) -> bool {
    match l {
        Label::Cluster(k) => k < c,
        _ => true,
    }
}

/// Labels every point with its cluster number or as noise; returns the labels
/// and the number of clusters opened.
pub fn dbscan_label(points: &Vec<ClusterPoint>) -> (r: (Vec<Label>, usize))
    ensures
        (r.0@, r.1) == dbscan_labels(relation(points@)),
        r.0@.len() == points@.len(),
        r.1 <= points@.len(),
        forall|q: int| 0 <= q < r.0@.len() ==> below(#[trigger] r.0@[q], r.1),
        forall|q: int| 0 <= q < r.0@.len() ==> #[trigger] r.0@[q] != Label::Unvisited,
{
    let ghost m = relation(points@);
    let n = points.len();
    let mut labels: Vec<Label> = Vec::new();
    let mut k: usize = 0;
    while k < n
        invariant
            k <= n,
            labels@ == Seq::new(k as nat, |t: int| Label::Unvisited),
        decreases n - k,
    {
        labels.push(Label::Unvisited);
        k = k + 1;
    }
    assert(labels@ == Seq::new(m.len(), |t: int| Label::Unvisited));
    let mut cluster_id: usize = 0;
    let mut i: usize = 0;
    while i < n
        invariant
            i <= n == points@.len() == m.len(),
            m == relation(points@),
            labels@.len() == n,
            cluster_id <= i,
            label_from(m, labels@, i as nat, cluster_id) == dbscan_labels(m),
            forall|q: int| 0 <= q < n ==> below(#[trigger] labels@[q], cluster_id),
            forall|q: int| 0 <= q < i ==> #[trigger] labels@[q] != Label::Unvisited,
        decreases n - i,
    {
        if labels[i] != Label::Unvisited {
            i = i + 1;
            continue;
        }
        let neighbours = region_query(points, i);
        if neighbours.len() < MIN_POINTS {
            labels.set(i, Label::Noise);
            i = i + 1;
            continue;
        }
        let c = cluster_id;
        labels.set(i, Label::Cluster(c));
        let ghost start = labels@;
        let ghost target = expand(m, start, neighbours@, 0, c);
        let mut seed = neighbours;
        proof {
            assert forall|t: int| 0 <= t < seed@.len() implies #[trigger] seed@[t] < n by {
                lemma_neighbours_below_bound(m, i as int, m.len(), t);
            }
            assert(seed@.no_duplicates()) by {
                assert forall|a: int, b: int| 0 <= a < seed@.len() && 0 <= b < seed@.len() && a != b
                    implies seed@[a] != seed@[b] by {
                    if a < b {
                        lemma_neighbours_increasing(m, i as int, m.len(), a, b);
                    } else {
                        lemma_neighbours_increasing(m, i as int, m.len(), b, a);
                    }
                }
            }
        }
        let mut j: usize = 0;
        while j < seed.len()
            invariant
                n == points@.len() == m.len(),
                m == relation(points@),
                labels@.len() == n,
                c < n,
                c == cluster_id,
                i < n,
                j <= seed@.len(),
                seed@.no_duplicates(),
                forall|t: int| 0 <= t < seed@.len() ==> #[trigger] seed@[t] < n,
                expand(m, labels@, seed@, j as nat, c) == target,
                forall|q: int| 0 <= q < n ==> below(#[trigger] labels@[q], (c + 1) as usize),
                forall|q: int| 0 <= q <= i ==> #[trigger] labels@[q] != Label::Unvisited,
            decreases n - j,
        {
            proof {
                lemma_distinct_below_len(seed@, n as nat);
            }
            let q = seed[j];
            if labels[q] == Label::Noise {
                labels.set(q, Label::Cluster(c));
                j = j + 1;
                continue;
            }
            if labels[q] != Label::Unvisited {
                j = j + 1;
                continue;
            }
            labels.set(q, Label::Cluster(c));
            let q_neighbours = region_query(points, q);
            if q_neighbours.len() >= MIN_POINTS {
                let ghost before = seed@;
                let mut t: usize = 0;
                while t < q_neighbours.len()
                    invariant
                        t <= q_neighbours@.len(),
                        n == points@.len(),
                        seed@ == add_new(before, q_neighbours@.take(t as int)),
                        seed@.no_duplicates(),
                        forall|u: int| 0 <= u < q_neighbours@.len() ==> #[trigger] q_neighbours@[u] < n,
                        forall|u: int| 0 <= u < seed@.len() ==> #[trigger] seed@[u] < n,
                        seed@.len() >= before.len(),
                    decreases q_neighbours@.len() - t,
                {
                    let nb = q_neighbours[t];
                    assert(q_neighbours@.take(t + 1).drop_last() == q_neighbours@.take(t as int));
                    if !holds(&seed, nb) {
                        seed.push(nb);
                    }
                    t = t + 1;
                }
                assert(q_neighbours@.take(q_neighbours@.len() as int) == q_neighbours@);
            }
            j = j + 1;
        }
        cluster_id = cluster_id + 1;
        i = i + 1;
    }
    (labels, cluster_id)
}

/// The groups as plain sequences.
pub open spec fn group_views(groups: Seq<Vec<usize>>) -> Seq<Seq<usize>> {
    groups.map_values(|g: Vec<usize>| g@)
}

/// The points labelled `c`, in increasing order.
pub fn members_of(labels: &Vec<Label>, c: usize) -> (r: Vec<usize>)
    ensures
        r@ == members(labels@, c),
{
    let mut r: Vec<usize> = Vec::new();
    let mut k: usize = 0;
    while k < labels.len()
        invariant
            k <= labels@.len(),
            r@ == members_below(labels@, c, k as nat),
        decreases labels@.len() - k,
    {
        if labels[k] == Label::Cluster(c) {
            r.push(k);
        }
        k = k + 1;
    }
    r
}

/// The groups of the first `count` clusters that have at least
/// [`MIN_POINTS`] members, in cluster order.
pub fn groups_of(labels: &Vec<Label>, count: usize) -> (groups: Vec<Vec<usize>>)
    ensures
        group_views(groups@) == groups_below(labels@, count as nat),
{
    let mut groups: Vec<Vec<usize>> = Vec::new();
    let mut c: usize = 0;
    while c < count
        invariant
            c <= count,
            group_views(groups@) == groups_below(labels@, c as nat),
        decreases count - c,
    {
        let g = members_of(labels, c);
        if g.len() >= MIN_POINTS {
            let ghost old_groups = groups@;
            groups.push(g);
            assert(group_views(groups@) == group_views(old_groups).push(g@));
        }
        c = c + 1;
    }
    groups
}

/// DBSCAN over the points' neighbourhood relation: the clusters with at least
/// [`MIN_POINTS`] members, each as the increasing list of its point indices.
pub fn dbscan(points: &Vec<ClusterPoint>) -> (groups: Vec<Vec<usize>>)
    ensures
        group_views(groups@) == dbscan_clusters(relation(points@)),
{
    let (labels, count) = dbscan_label(points);
    groups_of(&labels, count)
}

/// Groups the notes of `points` into clusters: DBSCAN over the points'
/// neighbourhood relation, each cluster given by the note ids of its points in
/// point order.
pub fn cluster_note_ids(points: &Vec<ClusterPoint>) -> (clusters: Vec<Vec<String>>)
    ensures
        clusters@.len() == dbscan_clusters(relation(points@)).len(),
        forall|k: int|
            0 <= k < clusters@.len() ==> strings_are(
                #[trigger] clusters@[k]@,
                group_note_ids(points@, dbscan_clusters(relation(points@))[k]),
            ),
{
    let groups = dbscan(points);
    let n = points.len();
    proof {
        assert(relation(points@).len() == points@.len());
        assert(points@.len() == n);
        lemma_dbscan_in_range(relation(points@));
    }
    let ghost spec_groups = dbscan_clusters(relation(points@));
    let mut clusters: Vec<Vec<String>> = Vec::new();
    let mut k: usize = 0;
    while k < groups.len()
        invariant
            k <= groups@.len(),
            group_views(groups@) == spec_groups,
            spec_groups == dbscan_clusters(relation(points@)),
            forall|a: int, b: int|
                0 <= a < spec_groups.len() && 0 <= b < spec_groups[a].len() ==> spec_groups[a][b]
                    < points@.len(),
            clusters@.len() == k,
            forall|t: int|
                0 <= t < k ==> strings_are(
                    #[trigger] clusters@[t]@,
                    group_note_ids(points@, spec_groups[t]),
                ),
        decreases groups@.len() - k,
    {
        let g = &groups[k];
        assert(g@ == spec_groups[k as int]);
        let mut ids: Vec<String> = Vec::new();
        let mut t: usize = 0;
        while t < g.len()
            invariant
                t <= g@.len(),
                g@ == spec_groups[k as int],
                forall|b: int| 0 <= b < g@.len() ==> g@[b] < points@.len(),
                ids@.len() == t,
                forall|u: int| 0 <= u < t ==> (#[trigger] ids@[u])@ == points@[g@[u] as int].note_id@,
            decreases g@.len() - t,
        {
            ids.push(points[g[t]].note_id.clone());
            t = t + 1;
        }
        clusters.push(ids);
        k = k + 1;
    }
    clusters
}

proof fn lemma_neighbours_increasing(m: Seq<Seq<bool>>, i: int, k: nat, a: int, b: int)
    requires
        k <= usize::MAX,
        0 <= a < b < neighbours_below(m, i, k).len(),
    ensures
        neighbours_below(m, i, k)[a] < neighbours_below(m, i, k)[b],
        neighbours_below(m, i, k)[b] < k,
    decreases k,
{
    if k > 0 {
        let prev = neighbours_below(m, i, (k - 1) as nat);
        if b < prev.len() {
            lemma_neighbours_increasing(m, i, (k - 1) as nat, a, b);
        } else {
            lemma_neighbours_below_bound(m, i, (k - 1) as nat, a);
        }
    }
}

proof fn lemma_neighbours_below_bound(m: Seq<Seq<bool>>, i: int, k: nat, a: int)
    requires
        k <= usize::MAX,
        0 <= a < neighbours_below(m, i, k).len(),
    ensures
        neighbours_below(m, i, k)[a] < k,
    decreases k,
{
    if k > 0 {
        let prev = neighbours_below(m, i, (k - 1) as nat);
        if a < prev.len() {
            lemma_neighbours_below_bound(m, i, (k - 1) as nat, a);
        }
    }
}

} // verus!

verus! {

/// The elements of `add_new(seed, more)` are those of `seed` followed by new
/// ones from `more`.
proof fn lemma_add_new(seed: Seq<usize>, more: Seq<usize>)
    ensures
        add_new(seed, more).len() >= seed.len(),
        forall|t: int| 0 <= t < seed.len() ==> add_new(seed, more)[t] == seed[t],
        forall|t: int|
            0 <= t < add_new(seed, more).len() ==> seed.contains(#[trigger] add_new(seed, more)[t])
                || more.contains(add_new(seed, more)[t]),
    decreases more.len(),
{
    if more.len() > 0 {
        lemma_add_new(seed, more.drop_last());
        let s = add_new(seed, more.drop_last());
        assert forall|t: int| 0 <= t < add_new(seed, more).len() implies seed.contains(
            #[trigger] add_new(seed, more)[t],
        ) || more.contains(add_new(seed, more)[t]) by {
            if t < s.len() {
                if more.drop_last().contains(s[t]) {
                    let w = choose|w: int| 0 <= w < more.drop_last().len() && more.drop_last()[w] == s[t];
                    assert(more[w] == s[t]);
                }
            } else {
                assert(more[more.len() - 1] == add_new(seed, more)[t]);
            }
        }
    }
}

/// Every neighbour of a point is a point.
proof fn lemma_neighbours_in_range(m: Seq<Seq<bool>>, i: int)
    requires
        m.len() <= usize::MAX,
    ensures
        forall|t: int| 0 <= t < neighbours(m, i).len() ==> #[trigger] neighbours(m, i)[t] < m.len(),
{
    assert forall|t: int| 0 <= t < neighbours(m, i).len() implies #[trigger] neighbours(m, i)[t]
        < m.len() by {
        lemma_neighbours_below_bound(m, i, m.len(), t);
    }
}

/// Whether every entry of `seed` indexes a point of `m`.
pub open spec fn seed_in_range(m: Seq<Seq<bool>>, seed: Seq<usize>) -> bool {
    forall|t: int| 0 <= t < seed.len() ==> #[trigger] seed[t] < m.len()
}

/// Extending a seed list by a point's neighbours keeps it within the points.
proof fn lemma_add_neighbours_in_range(m: Seq<Seq<bool>>, seed: Seq<usize>, q: int)
    requires
        m.len() <= usize::MAX,
        seed_in_range(m, seed),
    ensures
        seed_in_range(m, add_new(seed, neighbours(m, q))),
{
    let qn = neighbours(m, q);
    lemma_add_new(seed, qn);
    lemma_neighbours_in_range(m, q);
    assert forall|t: int| 0 <= t < add_new(seed, qn).len() implies #[trigger] add_new(seed, qn)[t]
        < m.len() by {
        let x = add_new(seed, qn)[t];
        if seed.contains(x) {
            let w = choose|w: int| 0 <= w < seed.len() && seed[w] == x;
        } else {
            let w = choose|w: int| 0 <= w < qn.len() && qn[w] == x;
        }
    }
}

/// Expansion keeps one label per point.
proof fn lemma_expand_len(m: Seq<Seq<bool>>, labels: Seq<Label>, seed: Seq<usize>, j: nat, c: usize)
    requires
        m.len() <= usize::MAX,
        labels.len() == m.len(),
        seed_in_range(m, seed),
    ensures
        expand(m, labels, seed, j, c).len() == labels.len(),
    decreases m.len() - j,
{
    if j < seed.len() && j < m.len() {
        let q = seed[j as int] as int;
        if labels[q] == Label::Noise {
            lemma_expand_len(m, labels.update(q, Label::Cluster(c)), seed, j + 1, c);
        } else if labels[q] != Label::Unvisited {
            lemma_expand_len(m, labels, seed, j + 1, c);
        } else {
            let qn = neighbours(m, q);
            let next_seed = if qn.len() >= MIN_POINTS {
                add_new(seed, qn)
            } else {
                seed
            };
            lemma_add_neighbours_in_range(m, seed, q);
            lemma_expand_len(m, labels.update(q, Label::Cluster(c)), next_seed, j + 1, c);
        }
    }
}

/// The labelling pass keeps one label per point.
proof fn lemma_label_from_len(m: Seq<Seq<bool>>, labels: Seq<Label>, i: nat, c: usize)
    requires
        m.len() <= usize::MAX,
        labels.len() == m.len(),
    ensures
        label_from(m, labels, i, c).0.len() == labels.len(),
    decreases m.len() - i,
{
    if i < m.len() {
        if labels[i as int] != Label::Unvisited {
            lemma_label_from_len(m, labels, i + 1, c);
        } else if neighbours(m, i as int).len() < MIN_POINTS {
            lemma_label_from_len(m, labels.update(i as int, Label::Noise), i + 1, c);
        } else {
            let start = labels.update(i as int, Label::Cluster(c));
            lemma_neighbours_in_range(m, i as int);
            lemma_expand_len(m, start, neighbours(m, i as int), 0, c);
            let grown = expand(m, start, neighbours(m, i as int), 0, c);
            lemma_label_from_len(m, grown, i + 1, (c + 1) as usize);
        }
    }
}

/// The members of cluster `c` among `0..k` are increasing, below `k`, and all
/// labelled `c`; every point below `k` labelled `c` is among them.
proof fn lemma_members_below(labels: Seq<Label>, c: usize, k: nat)
    requires
        k <= labels.len(),
        k <= usize::MAX,
    ensures
        forall|t: int|
            0 <= t < members_below(labels, c, k).len() ==> {
                &&& #[trigger] members_below(labels, c, k)[t] < k
                &&& labels[members_below(labels, c, k)[t] as int] == Label::Cluster(c)
            },
        forall|a: int, b: int|
            0 <= a < b < members_below(labels, c, k).len() ==> members_below(labels, c, k)[a]
                < members_below(labels, c, k)[b],
        forall|p: int|
            0 <= p < k && labels[p] == Label::Cluster(c) ==> members_below(
                labels,
                c,
                k,
            ).contains(p as usize),
    decreases k,
{
    if k > 0 {
        lemma_members_below(labels, c, (k - 1) as nat);
        let prev = members_below(labels, c, (k - 1) as nat);
        let cur = members_below(labels, c, k);
        assert forall|p: int| 0 <= p < k && labels[p] == Label::Cluster(c) implies cur.contains(
            p as usize,
        ) by {
            if p < k - 1 {
                let w = choose|w: int| 0 <= w < prev.len() && prev[w] == p as usize;
                assert(cur[w] == p as usize);
            } else {
                assert(cur[cur.len() - 1] == p as usize);
            }
        }
    }
}

/// The cluster number of each reported group among clusters `0..k`.
pub open spec fn group_cluster_numbers(labels: Seq<Label>, k: nat) -> Seq<usize>
    decreases k,
{
    if k == 0 {
        Seq::empty()
    } else {
        let prev = group_cluster_numbers(labels, (k - 1) as nat);
        if members(labels, (k - 1) as usize).len() >= MIN_POINTS {
            prev.push((k - 1) as usize)
        } else {
            prev
        }
    }
}

/// Each reported group is the member list of a distinct cluster, numbered in
/// increasing order, with at least [`MIN_POINTS`] members.
proof fn lemma_groups_below(labels: Seq<Label>, k: nat)
    requires
        k <= usize::MAX,
    ensures
        group_cluster_numbers(labels, k).len() == groups_below(labels, k).len(),
        forall|a: int|
            0 <= a < groups_below(labels, k).len() ==> {
                &&& #[trigger] groups_below(labels, k)[a] == members(
                    labels,
                    group_cluster_numbers(labels, k)[a],
                )
                &&& group_cluster_numbers(labels, k)[a] < k
                &&& groups_below(labels, k)[a].len() >= MIN_POINTS
            },
        forall|a: int|
            0 <= a < group_cluster_numbers(labels, k).len() ==> #[trigger] group_cluster_numbers(
                labels,
                k,
            )[a] < k,
        forall|a: int, b: int|
            0 <= a < b < groups_below(labels, k).len() ==> group_cluster_numbers(labels, k)[a]
                < group_cluster_numbers(labels, k)[b],
    decreases k,
{
    if k > 0 {
        lemma_groups_below(labels, (k - 1) as nat);
    }
}

/// The reported clusters are built over the final labels of the pass.
proof fn lemma_dbscan_shape(m: Seq<Seq<bool>>)
    requires
        m.len() <= usize::MAX,
    ensures
        dbscan_labels(m).0.len() == m.len(),
{
    lemma_label_from_len(m, Seq::new(m.len(), |k: int| Label::Unvisited), 0, 0);
}

/// Every reported member is the index of a point.
proof fn lemma_dbscan_in_range(m: Seq<Seq<bool>>)
    requires
        m.len() <= usize::MAX,
    ensures
        forall|a: int, b: int|
            0 <= a < dbscan_clusters(m).len() && 0 <= b < dbscan_clusters(m)[a].len()
                ==> dbscan_clusters(m)[a][b] < m.len(),
{
    let (labels, count) = dbscan_labels(m);
    lemma_dbscan_shape(m);
    lemma_groups_below(labels, count as nat);
    assert forall|a: int, b: int|
        0 <= a < dbscan_clusters(m).len() && 0 <= b < dbscan_clusters(m)[a].len()
        implies dbscan_clusters(m)[a][b] < m.len() by {
        let c = group_cluster_numbers(labels, count as nat)[a];
        lemma_members_below(labels, c, labels.len());
    }
}

} // verus!

verus! {

/// Every reported cluster has at least [`MIN_POINTS`] members.
pub proof fn law_clusters_have_min_points(m: Seq<Seq<bool>>)
    requires
        m.len() <= usize::MAX,
    ensures
        forall|a: int|
            0 <= a < dbscan_clusters(m).len() ==> #[trigger] dbscan_clusters(m)[a].len()
                >= MIN_POINTS,
{
    let (labels, count) = dbscan_labels(m);
    lemma_dbscan_shape(m);
    lemma_groups_below(labels, count as nat);
}

/// Each reported cluster lists distinct points in increasing order, and no
/// point belongs to two reported clusters.
pub proof fn law_clusters_are_disjoint(m: Seq<Seq<bool>>)
    requires
        m.len() <= usize::MAX,
    ensures
        forall|a: int, x: int, y: int|
            0 <= a < dbscan_clusters(m).len() && 0 <= x < y < dbscan_clusters(m)[a].len()
                ==> #[trigger] dbscan_clusters(m)[a][x] < #[trigger] dbscan_clusters(m)[a][y],
        forall|a: int, b: int, x: int, y: int|
            0 <= a < b < dbscan_clusters(m).len() && 0 <= x < dbscan_clusters(m)[a].len() && 0
                <= y < dbscan_clusters(m)[b].len() ==> #[trigger] dbscan_clusters(m)[a][x]
                != #[trigger] dbscan_clusters(m)[b][y],
{
    let (labels, count) = dbscan_labels(m);
    lemma_dbscan_shape(m);
    lemma_groups_below(labels, count as nat);
    let nums = group_cluster_numbers(labels, count as nat);
    assert forall|a: int, x: int, y: int|
        0 <= a < dbscan_clusters(m).len() && 0 <= x < y < dbscan_clusters(m)[a].len()
        implies #[trigger] dbscan_clusters(m)[a][x] < #[trigger] dbscan_clusters(m)[a][y] by {
        lemma_members_below(labels, nums[a], labels.len());
    }
    assert forall|a: int, b: int, x: int, y: int|
        0 <= a < b < dbscan_clusters(m).len() && 0 <= x < dbscan_clusters(m)[a].len() && 0 <= y
            < dbscan_clusters(m)[b].len()
        implies #[trigger] dbscan_clusters(m)[a][x] != #[trigger] dbscan_clusters(m)[b][y] by {
        lemma_members_below(labels, nums[a], labels.len());
        lemma_members_below(labels, nums[b], labels.len());
    }
}

/// Fewer than [`MIN_POINTS`] points never form a cluster.
pub proof fn law_too_few_points_form_no_cluster(m: Seq<Seq<bool>>)
    requires
        m.len() < MIN_POINTS,
    ensures
        dbscan_clusters(m).len() == 0,
{
    law_clusters_have_min_points(m);
    law_clusters_are_disjoint(m);
    lemma_dbscan_in_range(m);
    if dbscan_clusters(m).len() > 0 {
        let g = dbscan_clusters(m)[0];
        assert(g.len() >= 2);
        assert(g[0] < g[1]);
        assert(g[1] < m.len());
    }
}

} // verus!

verus! {

/// Whether no neighbourhood link joins a point of `a` to a point outside it.
pub open spec fn closed_under(m: Seq<Seq<bool>>, a: Set<int>) -> bool {
    forall|p: int, q: int|
        0 <= p < m.len() && 0 <= q < m.len() && #[trigger] adj(m, p, q) ==> (a.contains(p)
            <==> a.contains(q))
}

/// Whether points sharing a cluster label lie on the same side of `a`.
pub open spec fn sides_agree(labels: Seq<Label>, a: Set<int>) -> bool {
    forall|p: int, q: int|
        0 <= p < labels.len() && 0 <= q < labels.len() && (#[trigger] labels[p] is Cluster)
            && labels[p] == #[trigger] labels[q] ==> (a.contains(p) <==> a.contains(q))
}

/// A neighbour of `i` is a point adjacent to it, other than `i`.
proof fn lemma_neighbour_is_adjacent(m: Seq<Seq<bool>>, i: int, k: nat, t: int)
    requires
        k <= usize::MAX,
        0 <= t < neighbours_below(m, i, k).len(),
    ensures
        adj(m, i, neighbours_below(m, i, k)[t] as int),
        neighbours_below(m, i, k)[t] != i,
    decreases k,
{
    if k > 0 {
        let prev = neighbours_below(m, i, (k - 1) as nat);
        if t < prev.len() {
            lemma_neighbour_is_adjacent(m, i, (k - 1) as nat, t);
        }
    }
}

/// Expansion only labels points with the cluster being grown, and when
/// every point reached lies on one side of a closed set, so does the whole
/// cluster.
proof fn lemma_expand_one_side(
    m: Seq<Seq<bool>>,
    labels: Seq<Label>,
    seed: Seq<usize>,
    j: nat,
    c: usize,
    a: Set<int>,
    side: bool,
)
    requires
        m.len() <= usize::MAX,
        labels.len() == m.len(),
        seed_in_range(m, seed),
        closed_under(m, a),
        sides_agree(labels, a),
        forall|p: int| 0 <= p < labels.len() && labels[p] == Label::Cluster(c) ==> a.contains(p)
            == side,
        forall|t: int| 0 <= t < seed.len() ==> a.contains(#[trigger] seed[t] as int) == side,
    ensures
        expand(m, labels, seed, j, c).len() == labels.len(),
        forall|p: int|
            0 <= p < labels.len() ==> #[trigger] expand(m, labels, seed, j, c)[p] == labels[p]
                || expand(m, labels, seed, j, c)[p] == Label::Cluster(c),
        sides_agree(expand(m, labels, seed, j, c), a),
        forall|p: int|
            0 <= p < labels.len() && expand(m, labels, seed, j, c)[p] == Label::Cluster(c)
                ==> a.contains(p) == side,
    decreases m.len() - j,
{
    if j < seed.len() && j < m.len() {
        let q = seed[j as int] as int;
        let updated = labels.update(q, Label::Cluster(c));
        if labels[q] == Label::Noise {
            lemma_expand_one_side(m, updated, seed, j + 1, c, a, side);
        } else if labels[q] != Label::Unvisited {
            lemma_expand_one_side(m, labels, seed, j + 1, c, a, side);
        } else {
            let qn = neighbours(m, q);
            let next_seed = if qn.len() >= MIN_POINTS {
                add_new(seed, qn)
            } else {
                seed
            };
            lemma_add_neighbours_in_range(m, seed, q);
            lemma_add_new(seed, qn);
            lemma_neighbours_in_range(m, q);
            assert forall|t: int| 0 <= t < next_seed.len() implies a.contains(
                #[trigger] next_seed[t] as int,
            ) == side by {
                if qn.len() >= MIN_POINTS {
                    let x = next_seed[t];
                    if seed.contains(x) {
                        let w = choose|w: int| 0 <= w < seed.len() && seed[w] == x;
                    } else {
                        let w = choose|w: int| 0 <= w < qn.len() && qn[w] == x;
                        lemma_neighbour_is_adjacent(m, q, m.len(), w);
                    }
                }
            }
            lemma_expand_one_side(m, updated, next_seed, j + 1, c, a, side);
        }
    }
}

/// The labelling pass keeps points of one cluster on one side of a closed
/// set.
proof fn lemma_label_from_one_side(m: Seq<Seq<bool>>, labels: Seq<Label>, i: nat, c: usize, a: Set<int>)
    requires
        m.len() <= usize::MAX,
        labels.len() == m.len(),
        closed_under(m, a),
        sides_agree(labels, a),
        c <= i,
        forall|p: int| 0 <= p < labels.len() ==> below(#[trigger] labels[p], c),
    ensures
        sides_agree(label_from(m, labels, i, c).0, a),
    decreases m.len() - i,
{
    if i < m.len() {
        if labels[i as int] != Label::Unvisited {
            lemma_label_from_one_side(m, labels, i + 1, c, a);
        } else if neighbours(m, i as int).len() < MIN_POINTS {
            let next = labels.update(i as int, Label::Noise);
            assert forall|p: int| 0 <= p < next.len() implies below(#[trigger] next[p], c) by {
                if p != i {
                    assert(next[p] == labels[p]);
                }
            }
            lemma_label_from_one_side(m, next, i + 1, c, a);
        } else {
            let start = labels.update(i as int, Label::Cluster(c));
            let nb = neighbours(m, i as int);
            let side = a.contains(i as int);
            lemma_neighbours_in_range(m, i as int);
            assert forall|p: int| 0 <= p < start.len() && start[p] == Label::Cluster(c) implies a.contains(p)
                == side by {
                if p != i {
                    assert(start[p] == labels[p]);
                    assert(below(labels[p], c));
                }
            }
            assert forall|t: int| 0 <= t < nb.len() implies a.contains(#[trigger] nb[t] as int) == side by {
                lemma_neighbour_is_adjacent(m, i as int, m.len(), t);
            }
            assert(sides_agree(start, a)) by {
                assert forall|p: int, q: int|
                    0 <= p < start.len() && 0 <= q < start.len() && (#[trigger] start[p] is Cluster)
                        && start[p] == #[trigger] start[q] implies (a.contains(p) <==> a.contains(q)) by {
                    if p != i && q != i {
                        assert(start[p] == labels[p] && start[q] == labels[q]);
                    } else if p == i && q != i {
                        assert(start[q] == labels[q]);
                        assert(below(labels[q], c));
                    } else if q == i && p != i {
                        assert(start[p] == labels[p]);
                        assert(below(labels[p], c));
                    }
                }
            }
            lemma_expand_one_side(m, start, nb, 0, c, a, side);
            let grown = expand(m, start, nb, 0, c);
            assert forall|p: int| 0 <= p < grown.len() implies below(#[trigger] grown[p], (c + 1) as usize) by {
                if grown[p] != Label::Cluster(c) {
                    assert(grown[p] == start[p]);
                    if p != i {
                        assert(start[p] == labels[p]);
                        assert(below(labels[p], c));
                    }
                }
            }
            lemma_label_from_one_side(m, grown, i + 1, (c + 1) as usize, a);
        }
    }
}

/// A set of points with no neighbourhood link to the rest never shares a
/// cluster with the rest: each reported cluster lies wholly inside or wholly
/// outside it.
pub proof fn law_unlinked_groups_stay_apart(m: Seq<Seq<bool>>, a: Set<int>)
    requires
        m.len() <= usize::MAX,
        closed_under(m, a),
    ensures
        forall|k: int, x: int, y: int|
            0 <= k < dbscan_clusters(m).len() && 0 <= x < dbscan_clusters(m)[k].len() && 0 <= y
                < dbscan_clusters(m)[k].len() ==> (a.contains(#[trigger] dbscan_clusters(m)[k][x] as int)
                <==> a.contains(#[trigger] dbscan_clusters(m)[k][y] as int)),
{
    let init = Seq::new(m.len(), |k: int| Label::Unvisited);
    lemma_label_from_one_side(m, init, 0, 0, a);
    let (labels, count) = dbscan_labels(m);
    lemma_dbscan_shape(m);
    lemma_groups_below(labels, count as nat);
    let nums = group_cluster_numbers(labels, count as nat);
    assert forall|k: int, x: int, y: int|
        0 <= k < dbscan_clusters(m).len() && 0 <= x < dbscan_clusters(m)[k].len() && 0 <= y
            < dbscan_clusters(m)[k].len()
        implies (a.contains(#[trigger] dbscan_clusters(m)[k][x] as int)
            <==> a.contains(#[trigger] dbscan_clusters(m)[k][y] as int)) by {
        lemma_members_below(labels, nums[k], labels.len());
        let px = dbscan_clusters(m)[k][x] as int;
        let py = dbscan_clusters(m)[k][y] as int;
        assert(labels[px] == Label::Cluster(nums[k]));
        assert(labels[py] == Label::Cluster(nums[k]));
    }
}

} // verus!

verus! {

/// Whether the neighbourhood relation is symmetric on the points.
pub open spec fn symmetric(m: Seq<Seq<bool>>) -> bool {
    forall|p: int, q: int|
        0 <= p < m.len() && 0 <= q < m.len() ==> (#[trigger] adj(m, p, q) <==> #[trigger] adj(
            m,
            q,
            p,
        ))
}

/// Noise labels are only on points that are not core points.
pub open spec fn noise_not_core(m: Seq<Seq<bool>>, labels: Seq<Label>) -> bool {
    forall|p: int| 0 <= p < labels.len() && #[trigger] labels[p] == Label::Noise ==> !is_core(m, p)
}

/// Every labelled core point has all its neighbours labelled, and its core
/// neighbours in its own cluster.
pub open spec fn clusters_closed(m: Seq<Seq<bool>>, labels: Seq<Label>) -> bool {
    forall|p: int, x: usize|
        0 <= p < labels.len() && (#[trigger] labels[p] is Cluster) && is_core(m, p)
            && #[trigger] neighbours(m, p).contains(x) ==> (labels[x as int] is Cluster && (is_core(
            m,
            x as int,
        ) ==> labels[x as int] == labels[p]))
}

/// Every neighbour of a core point of cluster `c` is labelled.
pub open spec fn cluster_closed(m: Seq<Seq<bool>>, labels: Seq<Label>, c: usize) -> bool {
    forall|p: int, x: usize|
        0 <= p < labels.len() && #[trigger] labels[p] == Label::Cluster(c) && is_core(m, p)
            && #[trigger] neighbours(m, p).contains(x) ==> labels[x as int] is Cluster
}

/// Every neighbour of a core point of cluster `c` is queued in `seed`.
pub open spec fn queued(m: Seq<Seq<bool>>, labels: Seq<Label>, seed: Seq<usize>, c: usize) -> bool {
    forall|p: int, x: usize|
        0 <= p < labels.len() && #[trigger] labels[p] == Label::Cluster(c) && is_core(m, p)
            && #[trigger] neighbours(m, p).contains(x) ==> seed.contains(x)
}

/// The points adjacent to `i` are its neighbours.
proof fn lemma_adjacent_is_neighbour(m: Seq<Seq<bool>>, i: int, k: nat, x: int)
    requires
        k <= usize::MAX,
        0 <= x < k,
        x != i,
        adj(m, i, x),
    ensures
        neighbours_below(m, i, k).contains(x as usize),
    decreases k,
{
    let prev = neighbours_below(m, i, (k - 1) as nat);
    if x < k - 1 {
        lemma_adjacent_is_neighbour(m, i, (k - 1) as nat, x);
        let w = choose|w: int| 0 <= w < prev.len() && prev[w] == x as usize;
        assert(neighbours_below(m, i, k)[w] == x as usize);
    } else {
        let cur = neighbours_below(m, i, k);
        assert(cur[cur.len() - 1] == x as usize);
    }
}

/// In a symmetric relation, being a neighbour is symmetric.
proof fn lemma_neighbour_symmetric(m: Seq<Seq<bool>>, p: int, x: usize)
    requires
        m.len() <= usize::MAX,
        symmetric(m),
        0 <= p < m.len(),
        neighbours(m, p).contains(x),
    ensures
        neighbours(m, x as int).contains(p as usize),
        x < m.len(),
        x != p,
{
    let w = choose|w: int| 0 <= w < neighbours(m, p).len() && neighbours(m, p)[w] == x;
    lemma_neighbour_is_adjacent(m, p, m.len(), w);
    lemma_neighbours_in_range(m, p);
    assert(adj(m, x as int, p));
    lemma_adjacent_is_neighbour(m, x as int, m.len(), p);
}

/// `add_new` keeps a list free of repeats and holds every element of `more`.
proof fn lemma_add_new_distinct(seed: Seq<usize>, more: Seq<usize>)
    requires
        seed.no_duplicates(),
    ensures
        add_new(seed, more).no_duplicates(),
        forall|t: int| 0 <= t < more.len() ==> add_new(seed, more).contains(#[trigger] more[t]),
        forall|x: usize| seed.contains(x) ==> add_new(seed, more).contains(x),
    decreases more.len(),
{
    if more.len() > 0 {
        lemma_add_new_distinct(seed, more.drop_last());
        lemma_add_new(seed, more.drop_last());
        let s = add_new(seed, more.drop_last());
        let r = add_new(seed, more);
        assert forall|t: int| 0 <= t < more.len() implies r.contains(#[trigger] more[t]) by {
            if t < more.len() - 1 {
                assert(more.drop_last()[t] == more[t]);
                assert(s.contains(more[t]));
                let w = choose|w: int| 0 <= w < s.len() && s[w] == more[t];
                assert(r[w] == more[t]);
            } else if !s.contains(more.last()) {
                assert(r[r.len() - 1] == more.last());
            }
        }
        assert forall|x: usize| seed.contains(x) implies r.contains(x) by {
            let w = choose|w: int| 0 <= w < s.len() && s[w] == x;
            assert(r[w] == x);
        }
    }
}

/// The neighbours of a point are listed without repeats.
proof fn lemma_neighbours_distinct(m: Seq<Seq<bool>>, i: int)
    requires
        m.len() <= usize::MAX,
    ensures
        neighbours(m, i).no_duplicates(),
{
    assert forall|a: int, b: int|
        0 <= a < neighbours(m, i).len() && 0 <= b < neighbours(m, i).len() && a != b implies neighbours(
        m,
        i,
    )[a] != neighbours(m, i)[b] by {
        if a < b {
            lemma_neighbours_increasing(m, i, m.len(), a, b);
        } else {
            lemma_neighbours_increasing(m, i, m.len(), b, a);
        }
    }
}

/// Expanding cluster `c` only labels points with `c`, never relabels a
/// labelled point, removes noise labels only, and leaves every neighbour of a
/// core point of `c` labelled.
proof fn lemma_expand_closes(m: Seq<Seq<bool>>, labels: Seq<Label>, seed: Seq<usize>, j: nat, c: usize)
    requires
        m.len() <= usize::MAX,
        labels.len() == m.len(),
        seed_in_range(m, seed),
        seed.no_duplicates(),
        noise_not_core(m, labels),
        queued(m, labels, seed, c),
        forall|t: int| 0 <= t < j && t < seed.len() ==> (#[trigger] labels[seed[t] as int]) is Cluster,
    ensures
        expand(m, labels, seed, j, c).len() == labels.len(),
        forall|p: int|
            0 <= p < labels.len() ==> (#[trigger] expand(m, labels, seed, j, c)[p] == labels[p]
                || expand(m, labels, seed, j, c)[p] == Label::Cluster(c)),
        forall|p: int|
            0 <= p < labels.len() && (labels[p] is Cluster) ==> #[trigger] expand(m, labels, seed, j, c)[p]
                == labels[p],
        noise_not_core(m, expand(m, labels, seed, j, c)),
        cluster_closed(m, expand(m, labels, seed, j, c), c),
    decreases m.len() - j,
{
    let n = m.len();
    lemma_distinct_below_len(seed, n);
    if j < seed.len() && j < n {
        let q = seed[j as int] as int;
        let updated = labels.update(q, Label::Cluster(c));
        if labels[q] == Label::Noise {
            assert(!is_core(m, q));
            assert(queued(m, updated, seed, c)) by {
                assert forall|p: int, x: usize|
                    0 <= p < updated.len() && #[trigger] updated[p] == Label::Cluster(c) && is_core(m, p)
                        && #[trigger] neighbours(m, p).contains(x) implies seed.contains(x) by {
                    if p != q {
                        assert(labels[p] == updated[p]);
                    }
                }
            }
            assert forall|t: int| 0 <= t < j + 1 && t < seed.len() implies (#[trigger] updated[seed[t] as int]) is Cluster by {
                if seed[t] as int != q {
                    assert(updated[seed[t] as int] == labels[seed[t] as int]);
                }
            }
            assert(noise_not_core(m, updated)) by {
                assert forall|p: int| 0 <= p < updated.len() && #[trigger] updated[p] == Label::Noise implies !is_core(m, p) by {
                    assert(p != q);
                    assert(labels[p] == updated[p]);
                }
            }
            lemma_expand_closes(m, updated, seed, j + 1, c);
        } else if labels[q] != Label::Unvisited {
            lemma_expand_closes(m, labels, seed, j + 1, c);
        } else {
            let qn = neighbours(m, q);
            let next_seed = if qn.len() >= MIN_POINTS {
                add_new(seed, qn)
            } else {
                seed
            };
            lemma_add_neighbours_in_range(m, seed, q);
            lemma_add_new(seed, qn);
            lemma_add_new_distinct(seed, qn);
            assert(forall|x: usize| seed.contains(x) ==> next_seed.contains(x));
            assert(queued(m, updated, next_seed, c)) by {
                assert forall|p: int, x: usize|
                    0 <= p < updated.len() && #[trigger] updated[p] == Label::Cluster(c) && is_core(m, p)
                        && #[trigger] neighbours(m, p).contains(x) implies next_seed.contains(x) by {
                    if p != q {
                        assert(labels[p] == updated[p]);
                        assert(seed.contains(x));
                    } else {
                        let w = choose|w: int| 0 <= w < qn.len() && qn[w] == x;
                        assert(next_seed.contains(qn[w]));
                    }
                }
            }
            assert forall|t: int| 0 <= t < j + 1 && t < next_seed.len() implies (#[trigger] updated[next_seed[t] as int]) is Cluster by {
                assert(next_seed[t] == seed[t]);
                if seed[t] as int != q {
                    assert(updated[seed[t] as int] == labels[seed[t] as int]);
                }
            }
            assert(noise_not_core(m, updated)) by {
                assert forall|p: int| 0 <= p < updated.len() && #[trigger] updated[p] == Label::Noise implies !is_core(m, p) by {
                    assert(p != q);
                    assert(labels[p] == updated[p]);
                }
            }
            lemma_expand_closes(m, updated, next_seed, j + 1, c);
        }
    } else {
        assert forall|p: int, x: usize|
            0 <= p < labels.len() && #[trigger] labels[p] == Label::Cluster(c) && is_core(m, p)
                && #[trigger] neighbours(m, p).contains(x) implies labels[x as int] is Cluster by {
            let w = choose|w: int| 0 <= w < seed.len() && seed[w] == x;
            assert(labels[seed[w] as int] is Cluster);
        }
    }
}

/// The labelling pass ends with every point visited, labels below the number
/// of clusters, noise only on non-core points, and, for a symmetric relation,
/// every labelled core point with its neighbours labelled and its core
/// neighbours in its cluster.
proof fn lemma_label_from_closes(m: Seq<Seq<bool>>, labels: Seq<Label>, i: nat, c: usize)
    requires
        m.len() <= usize::MAX,
        symmetric(m),
        labels.len() == m.len(),
        i <= m.len(),
        c <= i,
        forall|p: int| 0 <= p < labels.len() ==> below(#[trigger] labels[p], c),
        forall|p: int| 0 <= p < i ==> #[trigger] labels[p] != Label::Unvisited,
        noise_not_core(m, labels),
        clusters_closed(m, labels),
    ensures
        label_from(m, labels, i, c).0.len() == m.len(),
        forall|p: int| 0 <= p < m.len() ==> #[trigger] label_from(m, labels, i, c).0[p] != Label::Unvisited,
        forall|p: int| 0 <= p < m.len() ==> below(#[trigger] label_from(m, labels, i, c).0[p], label_from(m, labels, i, c).1),
        noise_not_core(m, label_from(m, labels, i, c).0),
        clusters_closed(m, label_from(m, labels, i, c).0),
    decreases m.len() - i,
{
    let n = m.len();
    if i < n {
        if labels[i as int] != Label::Unvisited {
            lemma_label_from_closes(m, labels, i + 1, c);
        } else if neighbours(m, i as int).len() < MIN_POINTS {
            let next = labels.update(i as int, Label::Noise);
            assert forall|p: int| 0 <= p < next.len() implies below(#[trigger] next[p], c) by {
                if p != i {
                    assert(next[p] == labels[p]);
                }
            }
            assert forall|p: int| 0 <= p < i + 1 implies #[trigger] next[p] != Label::Unvisited by {
                if p != i {
                    assert(next[p] == labels[p]);
                }
            }
            assert(noise_not_core(m, next)) by {
                assert forall|p: int| 0 <= p < next.len() && #[trigger] next[p] == Label::Noise implies !is_core(m, p) by {
                    if p != i {
                        assert(next[p] == labels[p]);
                    }
                }
            }
            assert(clusters_closed(m, next)) by {
                assert forall|p: int, x: usize|
                    0 <= p < next.len() && (#[trigger] next[p] is Cluster) && is_core(m, p)
                        && #[trigger] neighbours(m, p).contains(x) implies (next[x as int] is Cluster && (is_core(
                        m,
                        x as int,
                    ) ==> next[x as int] == next[p])) by {
                    assert(p != i);
                    assert(next[p] == labels[p]);
                    assert(labels[x as int] is Cluster);
                    lemma_neighbours_in_range(m, p);
                    let w = choose|w: int| 0 <= w < neighbours(m, p).len() && neighbours(m, p)[w] == x;
                    assert(x < n);
                    assert(x as int != i);
                    assert(next[x as int] == labels[x as int]);
                }
            }
            lemma_label_from_closes(m, next, i + 1, c);
        } else {
            let start = labels.update(i as int, Label::Cluster(c));
            let nb = neighbours(m, i as int);
            lemma_neighbours_in_range(m, i as int);
            lemma_neighbours_distinct(m, i as int);
            assert(queued(m, start, nb, c)) by {
                assert forall|p: int, x: usize|
                    0 <= p < start.len() && #[trigger] start[p] == Label::Cluster(c) && is_core(m, p)
                        && #[trigger] neighbours(m, p).contains(x) implies nb.contains(x) by {
                    if p != i {
                        assert(start[p] == labels[p]);
                        assert(below(labels[p], c));
                    }
                }
            }
            assert(noise_not_core(m, start)) by {
                assert forall|p: int| 0 <= p < start.len() && #[trigger] start[p] == Label::Noise implies !is_core(m, p) by {
                    assert(p != i);
                    assert(start[p] == labels[p]);
                }
            }
            lemma_expand_closes(m, start, nb, 0, c);
            let grown = expand(m, start, nb, 0, c);
            assert forall|p: int| 0 <= p < grown.len() implies below(#[trigger] grown[p], (c + 1) as usize) by {
                if grown[p] != Label::Cluster(c) {
                    assert(grown[p] == start[p]);
                    if p != i {
                        assert(start[p] == labels[p]);
                        assert(below(labels[p], c));
                    }
                }
            }
            assert forall|p: int| 0 <= p < i + 1 implies #[trigger] grown[p] != Label::Unvisited by {
                if grown[p] != Label::Cluster(c) {
                    assert(grown[p] == start[p]);
                    if p != i {
                        assert(start[p] == labels[p]);
                    }
                }
            }
            assert(clusters_closed(m, grown)) by {
                assert forall|p: int, x: usize|
                    0 <= p < grown.len() && (#[trigger] grown[p] is Cluster) && is_core(m, p)
                        && #[trigger] neighbours(m, p).contains(x) implies (grown[x as int] is Cluster && (is_core(
                        m,
                        x as int,
                    ) ==> grown[x as int] == grown[p])) by {
                    lemma_neighbour_symmetric(m, p, x);
                    let xi = x as int;
                    if grown[p] == Label::Cluster(c) {
                        assert(grown[xi] is Cluster);
                        if is_core(m, xi) && grown[xi] != Label::Cluster(c) {
                            assert(grown[xi] == start[xi]);
                            assert(xi != i);
                            assert(start[xi] == labels[xi]);
                            assert(labels[xi] is Cluster);
                            assert(neighbours(m, xi).contains(p as usize));
                            assert(labels[p] is Cluster);
                            assert(p != i);
                            assert(start[p] == labels[p]);
                            assert(grown[p] == start[p]);
                            assert(labels[p] == labels[xi]);
                            assert(false);
                        }
                    } else {
                        assert(grown[p] == start[p]);
                        assert(p != i);
                        assert(start[p] == labels[p]);
                        assert(labels[xi] is Cluster);
                        assert(xi != i);
                        assert(start[xi] == labels[xi]);
                        assert(grown[xi] == start[xi]);
                    }
                }
            }
            lemma_label_from_closes(m, grown, i + 1, (c + 1) as usize);
        }
    }
}

/// A cluster with at least [`MIN_POINTS`] members is among the reported ones.
proof fn lemma_large_cluster_reported(labels: Seq<Label>, k: nat, c: usize)
    requires
        k <= usize::MAX,
        c < k,
        members(labels, c).len() >= MIN_POINTS,
    ensures
        exists|a: int| 0 <= a < groups_below(labels, k).len() && #[trigger] groups_below(labels, k)[a] == members(labels, c),
    decreases k,
{
    if c < k - 1 {
        lemma_large_cluster_reported(labels, (k - 1) as nat, c);
        let a = choose|a: int| 0 <= a < groups_below(labels, (k - 1) as nat).len() && #[trigger] groups_below(labels, (k - 1) as nat)[a] == members(labels, c);
        assert(groups_below(labels, k)[a] == members(labels, c));
    } else {
        let g = groups_below(labels, k);
        assert(g[g.len() - 1] == members(labels, c));
    }
}

/// For a symmetric neighbourhood relation, two core points that are
/// neighbours always end up in the same reported cluster.
pub proof fn law_neighbouring_core_points_cluster_together(m: Seq<Seq<bool>>)
    requires
        m.len() <= usize::MAX,
        symmetric(m),
    ensures
        forall|p: int, q: usize|
            0 <= p < m.len() && is_core(m, p) && is_core(m, q as int) && #[trigger] neighbours(m, p).contains(q)
                ==> exists|k: int|
                0 <= k < dbscan_clusters(m).len() && (#[trigger] dbscan_clusters(m)[k]).contains(p as usize)
                    && dbscan_clusters(m)[k].contains(q),
{
    let init = Seq::new(m.len(), |k: int| Label::Unvisited);
    lemma_label_from_closes(m, init, 0, 0);
    let (labels, count) = dbscan_labels(m);
    assert forall|p: int, q: usize|
        0 <= p < m.len() && is_core(m, p) && is_core(m, q as int) && #[trigger] neighbours(m, p).contains(q)
        implies exists|k: int|
            0 <= k < dbscan_clusters(m).len() && (#[trigger] dbscan_clusters(m)[k]).contains(p as usize)
                && dbscan_clusters(m)[k].contains(q) by {
        lemma_neighbour_symmetric(m, p, q);
        assert(labels[p] != Label::Unvisited);
        assert(labels[p] != Label::Noise);
        let c = labels[p]->Cluster_0;
        assert(labels[q as int] == labels[p]);
        assert(below(labels[p], count));
        lemma_members_below(labels, c, labels.len());
        let g = members(labels, c);
        assert(g.contains(p as usize));
        assert(g.contains(q));
        let wp = choose|w: int| 0 <= w < g.len() && g[w] == p as usize;
        let wq = choose|w: int| 0 <= w < g.len() && g[w] == q;
        assert(wp != wq);
        assert(g.len() >= MIN_POINTS);
        lemma_large_cluster_reported(labels, count as nat, c);
        let a = choose|a: int| 0 <= a < groups_below(labels, count as nat).len() && #[trigger] groups_below(labels, count as nat)[a] == members(labels, c);
        assert(dbscan_clusters(m) == groups_below(labels, count as nat));
        assert(dbscan_clusters(m)[a] == g);
    }
}

} // verus!

verus! {

/// Expansion never changes a label that already names a cluster.
proof fn lemma_expand_keeps_clusters(m: Seq<Seq<bool>>, labels: Seq<Label>, seed: Seq<usize>, j: nat, c: usize)
    requires
        m.len() <= usize::MAX,
        labels.len() == m.len(),
        seed_in_range(m, seed),
    ensures
        forall|p: int|
            0 <= p < labels.len() && (labels[p] is Cluster) ==> #[trigger] expand(m, labels, seed, j, c)[p]
                == labels[p],
    decreases m.len() - j,
{
    if j < seed.len() && j < m.len() {
        let q = seed[j as int] as int;
        let updated = labels.update(q, Label::Cluster(c));
        if labels[q] == Label::Noise {
            lemma_expand_keeps_clusters(m, updated, seed, j + 1, c);
            assert(expand(m, labels, seed, j, c) == expand(m, updated, seed, j + 1, c));
            assert forall|p: int| 0 <= p < labels.len() && (labels[p] is Cluster) implies #[trigger] expand(
                m,
                labels,
                seed,
                j,
                c,
            )[p] == labels[p] by {
                assert(updated[p] == labels[p]);
                assert(updated[p] is Cluster);
            }
        } else if labels[q] != Label::Unvisited {
            lemma_expand_keeps_clusters(m, labels, seed, j + 1, c);
            assert(expand(m, labels, seed, j, c) == expand(m, labels, seed, j + 1, c));
        } else {
            let qn = neighbours(m, q);
            let next_seed = if qn.len() >= MIN_POINTS {
                add_new(seed, qn)
            } else {
                seed
            };
            lemma_add_neighbours_in_range(m, seed, q);
            lemma_expand_keeps_clusters(m, updated, next_seed, j + 1, c);
            assert(expand(m, labels, seed, j, c) == expand(m, updated, next_seed, j + 1, c));
            assert forall|p: int| 0 <= p < labels.len() && (labels[p] is Cluster) implies #[trigger] expand(
                m,
                labels,
                seed,
                j,
                c,
            )[p] == labels[p] by {
                assert(updated[p] == labels[p]);
                assert(updated[p] is Cluster);
            }
        }
    }
}

/// Whether some core point carries the label of cluster `c`.
pub open spec fn opened_at_core(m: Seq<Seq<bool>>, labels: Seq<Label>, c: usize) -> bool {
    exists|p: int| 0 <= p < labels.len() && labels[p] == Label::Cluster(c) && is_core(m, p)
}

/// Every cluster the labelling pass opens keeps a core point labelled with it.
proof fn lemma_label_from_cores(m: Seq<Seq<bool>>, labels: Seq<Label>, i: nat, c: usize)
    requires
        m.len() <= usize::MAX,
        labels.len() == m.len(),
        i <= m.len(),
        c <= i,
        forall|k: usize| k < c ==> #[trigger] opened_at_core(m, labels, k),
    ensures
        forall|k: usize|
            k < label_from(m, labels, i, c).1 ==> #[trigger] opened_at_core(m, label_from(m, labels, i, c).0, k),
    decreases m.len() - i,
{
    if i < m.len() {
        if labels[i as int] != Label::Unvisited {
            lemma_label_from_cores(m, labels, i + 1, c);
            assert(label_from(m, labels, i, c) == label_from(m, labels, i + 1, c));
        } else if neighbours(m, i as int).len() < MIN_POINTS {
            let next = labels.update(i as int, Label::Noise);
            assert forall|k: usize| k < c implies #[trigger] opened_at_core(m, next, k) by {
                assert(opened_at_core(m, labels, k));
                let p = choose|p: int| 0 <= p < labels.len() && labels[p] == Label::Cluster(k) && is_core(m, p);
                assert(next[p] == labels[p]);
            }
            lemma_label_from_cores(m, next, i + 1, c);
            assert(label_from(m, labels, i, c) == label_from(m, next, i + 1, c));
        } else {
            let start = labels.update(i as int, Label::Cluster(c));
            let nb = neighbours(m, i as int);
            lemma_neighbours_in_range(m, i as int);
            lemma_expand_len(m, start, nb, 0, c);
            lemma_expand_keeps_clusters(m, start, nb, 0, c);
            let grown = expand(m, start, nb, 0, c);
            let c2 = (c + 1) as usize;
            assert forall|k: usize| k < c2 implies #[trigger] opened_at_core(m, grown, k) by {
                if k < c {
                    assert(opened_at_core(m, labels, k));
                    let p = choose|p: int| 0 <= p < labels.len() && labels[p] == Label::Cluster(k) && is_core(m, p);
                    assert(start[p] == labels[p]);
                    assert(grown[p] == start[p]);
                } else {
                    assert(start[i as int] == Label::Cluster(c));
                    assert(grown[i as int] == start[i as int]);
                }
            }
            lemma_label_from_cores(m, grown, i + 1, c2);
            assert(label_from(m, labels, i, c) == label_from(m, grown, i + 1, c2));
        }
    }
}

/// Whether some point of `group` is a core point.
pub open spec fn has_core_member(m: Seq<Seq<bool>>, group: Seq<usize>) -> bool {
    exists|t: int| 0 <= t < group.len() && is_core(m, group[t] as int)
}

/// Every reported cluster contains a core point: a point with at least
/// [`MIN_POINTS`] neighbours.
pub proof fn law_every_cluster_has_a_core_point(m: Seq<Seq<bool>>)
    requires
        m.len() <= usize::MAX,
    ensures
        forall|a: int| 0 <= a < dbscan_clusters(m).len() ==> has_core_member(m, #[trigger] dbscan_clusters(m)[a]),
{
    let init = Seq::new(m.len(), |k: int| Label::Unvisited);
    lemma_label_from_cores(m, init, 0, 0);
    let (labels, count) = dbscan_labels(m);
    lemma_dbscan_shape(m);
    lemma_groups_below(labels, count as nat);
    let nums = group_cluster_numbers(labels, count as nat);
    assert forall|a: int| 0 <= a < dbscan_clusters(m).len() implies has_core_member(m, #[trigger] dbscan_clusters(m)[a]) by {
        let c = nums[a];
        assert(opened_at_core(m, labels, c));
        let p = choose|p: int| 0 <= p < labels.len() && labels[p] == Label::Cluster(c) && is_core(m, p);
        lemma_members_below(labels, c, labels.len());
        let g = members(labels, c);
        assert(g.contains(p as usize));
        let t = choose|t: int| 0 <= t < g.len() && g[t] == p as usize;
        assert(dbscan_clusters(m)[a] == g);
        assert(is_core(m, dbscan_clusters(m)[a][t] as int));
    }
}

/// A core point has at least two other points as neighbours, so fewer than
/// three points never form a cluster.
pub proof fn law_fewer_than_three_points_form_no_cluster(m: Seq<Seq<bool>>)
    requires
        m.len() < 3,
    ensures
        dbscan_clusters(m).len() == 0,
{
    law_every_cluster_has_a_core_point(m);
    lemma_dbscan_in_range(m);
    if dbscan_clusters(m).len() > 0 {
        let g = dbscan_clusters(m)[0];
        assert(has_core_member(m, g));
        let t = choose|t: int| 0 <= t < g.len() && is_core(m, g[t] as int);
        let p = g[t] as int;
        assert(p < m.len());
        let nb = neighbours(m, p);
        assert(nb.len() >= 2);
        lemma_neighbours_increasing(m, p, m.len(), 0, 1);
        lemma_neighbour_is_adjacent(m, p, m.len(), 0);
        lemma_neighbour_is_adjacent(m, p, m.len(), 1);
        assert(false);
    }
}

} // verus!

use vstd::prelude::*;
use crate::image_info::ImageInfo;
use crate::similarity::{distance, hamming};

verus! {

/// Records `i` and `j` count as similar: the Hamming distance of their
/// fingerprints over `bits` bit positions is strictly below `threshold`.
pub open spec fn close(imgs: Seq<ImageInfo>, threshold: u64, bits: nat, i: int, j: int) -> bool {
    hamming(imgs[i].hash, imgs[j].hash, bits) < threshold
}

/// An edge is an ordered pair of distinct in-range record indices.
pub open spec fn edge_wf(e: (usize, usize), n: nat) -> bool {
    e.0 < e.1 < n
}

/// Lexicographic order on edges, following enumeration order.
pub open spec fn edge_lt(e1: (usize, usize), e2: (usize, usize)) -> bool {
    e1.0 < e2.0 || (e1.0 == e2.0 && e1.1 < e2.1)
}

/// Enumerate every unordered pair of distinct records once, in
/// lexicographic order, and retain exactly the pairs whose fingerprint
/// distance is strictly below `threshold`. A pair at distance equal to
/// `threshold` is not an edge.
pub fn similarity_edges(images: &Vec<ImageInfo>, threshold: u64, bit_count: u32) -> (edges: Vec<
    (usize, usize),
>)
    requires
        bit_count <= 64,
    ensures
        forall|k: int|
            0 <= k < edges@.len() ==> edge_wf(#[trigger] edges@[k], images@.len()) && close(
                images@,
                threshold,
                bit_count as nat,
                edges@[k].0 as int,
                edges@[k].1 as int,
            ),
        forall|a: usize, b: usize|
            a < b < images@.len() && close(images@, threshold, bit_count as nat, a as int, b as int)
                ==> #[trigger] edges@.contains((a, b)),
        forall|k1: int, k2: int| 0 <= k1 < k2 < edges@.len() ==> edge_lt(edges@[k1], edges@[k2]),
{
    let n = images.len();
    let mut edges: Vec<(usize, usize)> = Vec::new();
    let mut i: usize = 0;
    while i < n
        invariant
            n == images@.len(),
            bit_count <= 64,
            i <= n,
            forall|k: int|
                0 <= k < edges@.len() ==> edge_wf(#[trigger] edges@[k], n as nat) && close(
                    images@,
                    threshold,
                    bit_count as nat,
                    edges@[k].0 as int,
                    edges@[k].1 as int,
                ),
            forall|a: usize, b: usize|
                a < b < n && a < i && close(
                    images@,
                    threshold,
                    bit_count as nat,
                    a as int,
                    b as int,
                ) ==> #[trigger] edges@.contains((a, b)),
            forall|k: int| 0 <= k < edges@.len() ==> (#[trigger] edges@[k]).0 < i,
            forall|k1: int, k2: int|
                0 <= k1 < k2 < edges@.len() ==> edge_lt(edges@[k1], edges@[k2]),
        decreases n - i,
    {
        let mut j = i + 1;
        while j < n
            invariant
                n == images@.len(),
                bit_count <= 64,
                i < n,
                i < j <= n,
                forall|k: int|
                    0 <= k < edges@.len() ==> edge_wf(#[trigger] edges@[k], n as nat) && close(
                        images@,
                        threshold,
                        bit_count as nat,
                        edges@[k].0 as int,
                        edges@[k].1 as int,
                    ),
                forall|a: usize, b: usize|
                    a < b < n && (a < i || (a == i && b < j)) && close(
                        images@,
                        threshold,
                        bit_count as nat,
                        a as int,
                        b as int,
                    ) ==> #[trigger] edges@.contains((a, b)),
                forall|k: int|
                    0 <= k < edges@.len() ==> (#[trigger] edges@[k]).0 < i || (edges@[k].0 == i
                        && edges@[k].1 < j),
                forall|k1: int, k2: int|
                    0 <= k1 < k2 < edges@.len() ==> edge_lt(edges@[k1], edges@[k2]),
            decreases n - j,
        {
            let ghost old_edges = edges@;
            if distance(images[i].hash, images[j].hash, bit_count) < threshold {
                edges.push((i, j));
                proof {
                    assert forall|a: usize, b: usize|
                        a < b < n && (a < i || (a == i && b < j + 1)) && close(
                            images@,
                            threshold,
                            bit_count as nat,
                            a as int,
                            b as int,
                        ) implies #[trigger] edges@.contains((a, b)) by {
                        if a == i && b == j {
                            assert(edges@[edges@.len() - 1] == (a, b));
                        } else {
                            assert(old_edges.contains((a, b)));
                            let k = choose|k: int|
                                0 <= k < old_edges.len() && old_edges[k] == (a, b);
                            assert(edges@[k] == (a, b));
                        }
                    }
                }
            } else {
                proof {
                    assert forall|a: usize, b: usize|
                        a < b < n && (a < i || (a == i && b < j + 1)) && close(
                            images@,
                            threshold,
                            bit_count as nat,
                            a as int,
                            b as int,
                        ) implies #[trigger] edges@.contains((a, b)) by {
                        assert(!(a == i && b == j));
                        assert(edges@.contains((a, b)));
                    }
                }
            }
            j = j + 1;
        }
        i = i + 1;
        proof {
            assert forall|a: usize, b: usize|
                a < b < n && a < i && close(
                    images@,
                    threshold,
                    bit_count as nat,
                    a as int,
                    b as int,
                ) implies #[trigger] edges@.contains((a, b)) by {
                assert(a < i - 1 || (a == i - 1 && b < n));
            }
        }
    }
    edges
}

/// Some edge has `v` as an endpoint.
pub open spec fn has_edge(edges: Seq<(usize, usize)>, v: usize) -> bool {
    exists|k: int| 0 <= k < edges.len() && ((#[trigger] edges[k]).0 == v || edges[k].1 == v)
}

/// `a` and `b` are the two endpoints of some edge.
pub open spec fn adjacent(edges: Seq<(usize, usize)>, a: usize, b: usize) -> bool {
    exists|k: int| 0 <= k < edges.len() && ((#[trigger] edges[k]) == (a, b) || edges[k] == (b, a))
}

/// `b` can be reached from `a` along a chain of at most `n` edges.
pub open spec fn reach(edges: Seq<(usize, usize)>, a: usize, b: usize, n: nat) -> bool
    decreases n,
{
    a == b || (n > 0 && exists|c: usize|
        reach(edges, a, c, (n - 1) as nat) && #[trigger] adjacent(edges, c, b))
}

/// `a` and `b` are connected: equal, or joined by a chain of edges.
pub open spec fn connected(edges: Seq<(usize, usize)>, a: usize, b: usize) -> bool {
    exists|n: nat| reach(edges, a, b, n)
}

/// Every vertex is connected to itself.
pub proof fn lemma_connected_refl(edges: Seq<(usize, usize)>, a: usize)
    ensures
        connected(edges, a, a),
{
    assert(reach(edges, a, a, 0));
}

/// Adjacency does not depend on the order of the two endpoints.
pub proof fn lemma_adjacent_symmetric(edges: Seq<(usize, usize)>, a: usize, b: usize)
    requires
        adjacent(edges, a, b),
    ensures
        adjacent(edges, b, a),
{
    let k = choose|k: int| 0 <= k < edges.len() && ((#[trigger] edges[k]) == (a, b) || edges[k]
        == (b, a));
    assert(0 <= k < edges.len() && (edges[k] == (b, a) || edges[k] == (a, b)));
}

/// A connection extends along one further edge.
pub proof fn lemma_connected_step(edges: Seq<(usize, usize)>, a: usize, b: usize, c: usize)
    requires
        connected(edges, a, b),
        adjacent(edges, b, c),
    ensures
        connected(edges, a, c),
{
    let n = choose|n: nat| reach(edges, a, b, n);
    assert(reach(edges, a, c, n + 1));
}

proof fn lemma_reach_trans(edges: Seq<(usize, usize)>, a: usize, b: usize, c: usize, n: nat)
    requires
        connected(edges, a, b),
        reach(edges, b, c, n),
    ensures
        connected(edges, a, c),
    decreases n,
{
    if b == c {
    } else {
        let d = choose|d: usize|
            reach(edges, b, d, (n - 1) as nat) && #[trigger] adjacent(edges, d, c);
        lemma_reach_trans(edges, a, b, d, (n - 1) as nat);
        lemma_connected_step(edges, a, d, c);
    }
}

/// Connectivity is transitive.
pub proof fn lemma_connected_trans(edges: Seq<(usize, usize)>, a: usize, b: usize, c: usize)
    requires
        connected(edges, a, b),
        connected(edges, b, c),
    ensures
        connected(edges, a, c),
{
    let n = choose|n: nat| reach(edges, b, c, n);
    lemma_reach_trans(edges, a, b, c, n);
}

proof fn lemma_reach_symmetric(edges: Seq<(usize, usize)>, a: usize, b: usize, n: nat)
    requires
        reach(edges, a, b, n),
    ensures
        connected(edges, b, a),
    decreases n,
{
    if a == b {
        lemma_connected_refl(edges, a);
    } else {
        let c = choose|c: usize|
            reach(edges, a, c, (n - 1) as nat) && #[trigger] adjacent(edges, c, b);
        lemma_reach_symmetric(edges, a, c, (n - 1) as nat);
        lemma_adjacent_symmetric(edges, c, b);
        lemma_connected_refl(edges, b);
        lemma_connected_step(edges, b, b, c);
        lemma_connected_trans(edges, b, c, a);
    }
}

/// Connectivity is symmetric.
pub proof fn lemma_connected_symmetric(edges: Seq<(usize, usize)>, a: usize, b: usize)
    requires
        connected(edges, a, b),
    ensures
        connected(edges, b, a),
{
    let n = choose|n: nat| reach(edges, a, b, n);
    lemma_reach_symmetric(edges, a, b, n);
}

/// Records `a` and `b` form a similarity edge: distinct in-range records
/// whose fingerprint distance is strictly below the threshold.
pub open spec fn similar_pair(
    imgs: Seq<ImageInfo>,
    threshold: u64,
    bits: nat,
    a: usize,
    b: usize,
) -> bool {
    a != b && a < imgs.len() && b < imgs.len() && close(imgs, threshold, bits, a as int, b as int)
}

/// Record `v` has at least one similarity edge.
pub open spec fn has_similar(imgs: Seq<ImageInfo>, threshold: u64, bits: nat, v: usize) -> bool {
    exists|w: usize| similar_pair(imgs, threshold, bits, v, w)
}

/// Record `b` can be reached from record `a` along a chain of at most `n`
/// similarity edges.
pub open spec fn sreach(
    imgs: Seq<ImageInfo>,
    threshold: u64,
    bits: nat,
    a: usize,
    b: usize,
    n: nat,
) -> bool
    decreases n,
{
    a == b || (n > 0 && exists|c: usize|
        sreach(imgs, threshold, bits, a, c, (n - 1) as nat) && #[trigger] similar_pair(
            imgs,
            threshold,
            bits,
            c,
            b,
        ))
}

/// Records `a` and `b` lie in one connected component of the similarity
/// graph: equal, or joined by a chain of similarity edges.
pub open spec fn similar_connected(
    imgs: Seq<ImageInfo>,
    threshold: u64,
    bits: nat,
    a: usize,
    b: usize,
) -> bool {
    exists|n: nat| sreach(imgs, threshold, bits, a, b, n)
}

/// The two ensured characterizations of `similarity_edges`, as a predicate
/// on the produced edge list.
pub open spec fn edges_complete(
    imgs: Seq<ImageInfo>,
    threshold: u64,
    bits: nat,
    edges: Seq<(usize, usize)>,
) -> bool {
    &&& forall|k: int|
        0 <= k < edges.len() ==> edge_wf(#[trigger] edges[k], imgs.len()) && close(
            imgs,
            threshold,
            bits,
            edges[k].0 as int,
            edges[k].1 as int,
        )
    &&& forall|a: usize, b: usize|
        a < b < imgs.len() && close(imgs, threshold, bits, a as int, b as int)
            ==> #[trigger] edges.contains((a, b))
}

/// Over a complete edge list, edge adjacency coincides with the similar
/// pair relation on records.
pub proof fn lemma_adjacent_iff_similar(
    imgs: Seq<ImageInfo>,
    threshold: u64,
    bits: nat,
    edges: Seq<(usize, usize)>,
)
    requires
        edges_complete(imgs, threshold, bits, edges),
    ensures
        forall|a: usize, b: usize|
            #![trigger adjacent(edges, a, b)]
            #![trigger similar_pair(imgs, threshold, bits, a, b)]
            adjacent(edges, a, b) == similar_pair(imgs, threshold, bits, a, b),
{
    assert forall|a: usize, b: usize| #[trigger]
        adjacent(edges, a, b) implies similar_pair(imgs, threshold, bits, a, b) by {
        let k = choose|k: int|
            0 <= k < edges.len() && ((#[trigger] edges[k]) == (a, b) || edges[k] == (b, a));
        crate::similarity::lemma_hamming_symmetric(imgs[a as int].hash, imgs[b as int].hash, bits);
    }
    assert forall|a: usize, b: usize| #[trigger]
        similar_pair(imgs, threshold, bits, a, b) implies adjacent(edges, a, b) by {
        crate::similarity::lemma_hamming_symmetric(imgs[a as int].hash, imgs[b as int].hash, bits);
        if a < b {
            assert(edges.contains((a, b)));
            let k = choose|k: int| 0 <= k < edges.len() && edges[k] == (a, b);
            assert(0 <= k < edges.len() && (edges[k] == (a, b) || edges[k] == (b, a)));
        } else {
            assert(close(imgs, threshold, bits, b as int, a as int));
            assert(edges.contains((b, a)));
            let k = choose|k: int| 0 <= k < edges.len() && edges[k] == (b, a);
            assert(0 <= k < edges.len() && (edges[k] == (a, b) || edges[k] == (b, a)));
        }
    }
}

/// Over a complete edge list, having an edge coincides with having a
/// similar partner.
pub proof fn lemma_has_edge_iff_has_similar(
    imgs: Seq<ImageInfo>,
    threshold: u64,
    bits: nat,
    edges: Seq<(usize, usize)>,
)
    requires
        edges_complete(imgs, threshold, bits, edges),
    ensures
        forall|v: usize|
            #![trigger has_edge(edges, v)]
            #![trigger has_similar(imgs, threshold, bits, v)]
            has_edge(edges, v) == (v < imgs.len() && has_similar(imgs, threshold, bits, v)),
{
    lemma_adjacent_iff_similar(imgs, threshold, bits, edges);
    assert forall|v: usize| #[trigger]
        has_edge(edges, v) implies v < imgs.len() && has_similar(imgs, threshold, bits, v) by {
        let k = choose|k: int|
            0 <= k < edges.len() && ((#[trigger] edges[k]).0 == v || edges[k].1 == v);
        let w = if edges[k].0 == v {
            edges[k].1
        } else {
            edges[k].0
        };
        assert(adjacent(edges, v, w));
    }
    assert forall|v: usize|
        v < imgs.len() && #[trigger] has_similar(imgs, threshold, bits, v) implies has_edge(
        edges,
        v,
    ) by {
        let w = choose|w: usize| similar_pair(imgs, threshold, bits, v, w);
        assert(adjacent(edges, v, w));
        let k = choose|k: int|
            0 <= k < edges.len() && ((#[trigger] edges[k]) == (v, w) || edges[k] == (w, v));
        assert(edges[k].0 == v || edges[k].1 == v);
    }
}

proof fn lemma_reach_iff_sreach(
    imgs: Seq<ImageInfo>,
    threshold: u64,
    bits: nat,
    edges: Seq<(usize, usize)>,
    a: usize,
    b: usize,
    n: nat,
)
    requires
        edges_complete(imgs, threshold, bits, edges),
    ensures
        reach(edges, a, b, n) == sreach(imgs, threshold, bits, a, b, n),
    decreases n,
{
    lemma_adjacent_iff_similar(imgs, threshold, bits, edges);
    if n > 0 && a != b {
        if reach(edges, a, b, n) {
            let c = choose|c: usize|
                reach(edges, a, c, (n - 1) as nat) && #[trigger] adjacent(edges, c, b);
            lemma_reach_iff_sreach(imgs, threshold, bits, edges, a, c, (n - 1) as nat);
            assert(similar_pair(imgs, threshold, bits, c, b));
            assert(sreach(imgs, threshold, bits, a, b, n));
        }
        if sreach(imgs, threshold, bits, a, b, n) {
            let c = choose|c: usize|
                sreach(imgs, threshold, bits, a, c, (n - 1) as nat) && #[trigger] similar_pair(
                    imgs,
                    threshold,
                    bits,
                    c,
                    b,
                );
            lemma_reach_iff_sreach(imgs, threshold, bits, edges, a, c, (n - 1) as nat);
            assert(adjacent(edges, c, b));
            assert(reach(edges, a, b, n));
        }
    }
}

/// Over a complete edge list, edge connectivity coincides with similarity
/// connectivity on records.
pub proof fn lemma_connected_iff_similar_connected(
    imgs: Seq<ImageInfo>,
    threshold: u64,
    bits: nat,
    edges: Seq<(usize, usize)>,
)
    requires
        edges_complete(imgs, threshold, bits, edges),
    ensures
        forall|a: usize, b: usize|
            #![trigger connected(edges, a, b)]
            #![trigger similar_connected(imgs, threshold, bits, a, b)]
            connected(edges, a, b) == similar_connected(imgs, threshold, bits, a, b),
{
    assert forall|a: usize, b: usize| #[trigger]
        connected(edges, a, b) implies similar_connected(imgs, threshold, bits, a, b) by {
        let n = choose|n: nat| reach(edges, a, b, n);
        lemma_reach_iff_sreach(imgs, threshold, bits, edges, a, b, n);
    }
    assert forall|a: usize, b: usize| #[trigger]
        similar_connected(imgs, threshold, bits, a, b) implies connected(edges, a, b) by {
        let n = choose|n: nat| sreach(imgs, threshold, bits, a, b, n);
        lemma_reach_iff_sreach(imgs, threshold, bits, edges, a, b, n);
    }
}

/// Two consecutive similarity edges connect their outer endpoints: when
/// records `a` and `b` are similar and `b` and `c` are similar, `a` and `c`
/// lie in one connected component even if `a` and `c` themselves are not
/// similar, so grouping must put all three in one group.
pub proof fn lemma_chain_connected(
    imgs: Seq<ImageInfo>,
    threshold: u64,
    bits: nat,
    a: usize,
    b: usize,
    c: usize,
)
    requires
        similar_pair(imgs, threshold, bits, a, b),
        similar_pair(imgs, threshold, bits, b, c),
    ensures
        similar_connected(imgs, threshold, bits, a, b),
        similar_connected(imgs, threshold, bits, a, c),
{
    assert(sreach(imgs, threshold, bits, a, a, 0));
    assert(sreach(imgs, threshold, bits, a, b, 1));
    assert(sreach(imgs, threshold, bits, a, c, 2));
}

/// Vertex `v` is a member of group `gi`.
pub open spec fn in_group(groups: Seq<Vec<usize>>, gi: int, v: usize) -> bool {
    0 <= gi < groups.len() && groups[gi]@.contains(v)
}

/// Vertex `v` is a member of some group.
pub open spec fn in_some_group(groups: Seq<Vec<usize>>, v: usize) -> bool {
    exists|gi: int| in_group(groups, gi, v)
}

/// Both endpoints of edge `k` lie in one common group.
pub open spec fn edge_in_groups(
    edges: Seq<(usize, usize)>,
    groups: Seq<Vec<usize>>,
    k: int,
) -> bool {
    exists|gi: int|
        #![trigger in_group(groups, gi, edges[k].0)]
        in_group(groups, gi, edges[k].0) && in_group(groups, gi, edges[k].1)
}

/// Some group holds an endpoint of edge `k`.
spec fn edge_touches_groups(
    edges: Seq<(usize, usize)>,
    groups: Seq<Vec<usize>>,
    k: int,
) -> bool {
    exists|gi: int|
        #![trigger in_group(groups, gi, edges[k].0)]
        in_group(groups, gi, edges[k].0) || in_group(groups, gi, edges[k].1)
}

/// An endpoint of edge `k` is a member of the vertex set `s`.
spec fn edge_touches_set(edges: Seq<(usize, usize)>, s: Seq<usize>, k: int) -> bool {
    s.contains(edges[k].0) || s.contains(edges[k].1)
}

/// In a disjoint family of groups where every edge has both endpoints in
/// one common group, each group is closed under reachability: a chain of
/// edges starting at a member cannot leave the group.
proof fn lemma_component_closed(
    edges: Seq<(usize, usize)>,
    groups: Seq<Vec<usize>>,
    gi: int,
    u: usize,
    v: usize,
    n: nat,
)
    requires
        forall|k: int| 0 <= k < edges.len() ==> edge_in_groups(edges, groups, k),
        forall|g1: int, g2: int, w: usize|
            #![trigger in_group(groups, g1, w), in_group(groups, g2, w)]
            in_group(groups, g1, w) && in_group(groups, g2, w) ==> g1 == g2,
        in_group(groups, gi, u),
        reach(edges, u, v, n),
        has_edge(edges, v),
    ensures
        in_group(groups, gi, v),
    decreases n,
{
    if u == v {
    } else {
        let c = choose|c: usize|
            reach(edges, u, c, (n - 1) as nat) && #[trigger] adjacent(edges, c, v);
        let k = choose|k: int|
            0 <= k < edges.len() && ((#[trigger] edges[k]) == (c, v) || edges[k] == (v, c));
        assert(has_edge(edges, c));
        lemma_component_closed(edges, groups, gi, u, c, (n - 1) as nat);
        assert(edge_in_groups(edges, groups, k));
        let g2 = choose|g2: int|
            #![trigger in_group(groups, g2, edges[k].0)]
            in_group(groups, g2, edges[k].0) && in_group(groups, g2, edges[k].1);
        assert(in_group(groups, g2, c) && in_group(groups, g2, v));
        assert(g2 == gi);
    }
}

/// The number of edges not yet consumed by the grouping scan.
spec fn count_unconsumed(c: Seq<bool>) -> nat
    decreases c.len(),
{
    if c.len() == 0 {
        0
    } else {
        count_unconsumed(c.drop_last()) + if c.last() {
            0nat
        } else {
            1nat
        }
    }
}

proof fn lemma_count_unconsumed_set(c: Seq<bool>, k: int)
    requires
        0 <= k < c.len(),
        !c[k],
    ensures
        count_unconsumed(c.update(k, true)) < count_unconsumed(c),
    decreases c.len(),
{
    if k == c.len() - 1 {
        assert(c.update(k, true).drop_last() =~= c.drop_last());
    } else {
        assert(c.update(k, true).drop_last() =~= c.drop_last().update(k, true));
        lemma_count_unconsumed_set(c.drop_last(), k);
    }
}

/// Whether the vertex set `s` holds `x`.
fn contains_vertex(s: &Vec<usize>, x: usize) -> (b: bool)
    ensures
        b == s@.contains(x),
{
    let mut k: usize = 0;
    while k < s.len()
        invariant
            k <= s@.len(),
            forall|p: int| 0 <= p < k ==> s@[p] != x,
        decreases s@.len() - k,
    {
        if s[k] == x {
            return true;
        }
        k = k + 1;
    }
    false
}

/// Well-formedness of an emitted family of groups: every group is a
/// nonempty duplicate-free set of vertices that all carry at least one
/// edge, no vertex is in two groups, and members of one group are
/// pairwise connected.
pub open spec fn groups_wf(edges: Seq<(usize, usize)>, groups: Seq<Vec<usize>>) -> bool {
    &&& forall|gi: int| 0 <= gi < groups.len() ==> (#[trigger] groups[gi])@.len() > 0
    &&& forall|gi: int| 0 <= gi < groups.len() ==> (#[trigger] groups[gi])@.no_duplicates()
    &&& forall|g1: int, g2: int, v: usize|
        #![trigger in_group(groups, g1, v), in_group(groups, g2, v)]
        in_group(groups, g1, v) && in_group(groups, g2, v) ==> g1 == g2
    &&& forall|gi: int, v: usize| #[trigger] in_group(groups, gi, v) ==> has_edge(edges, v)
    &&& forall|gi: int, u: usize, v: usize|
        #![trigger in_group(groups, gi, u), in_group(groups, gi, v)]
        in_group(groups, gi, u) && in_group(groups, gi, v) ==> connected(edges, u, v)
}

/// The vertex set under construction: duplicate-free, every member has an
/// edge, and members are pairwise connected.
spec fn set_wf(edges: Seq<(usize, usize)>, s: Seq<usize>) -> bool {
    &&& s.no_duplicates()
    &&& forall|p: int| 0 <= p < s.len() ==> has_edge(edges, #[trigger] s[p])
    &&& forall|p: int, q: int|
        #![trigger s[p], s[q]]
        0 <= p < s.len() && 0 <= q < s.len() ==> connected(edges, s[p], s[q])
}

/// No member of the vertex set under construction lies in an emitted group.
spec fn set_fresh(groups: Seq<Vec<usize>>, s: Seq<usize>) -> bool {
    forall|p: int, gi: int| 0 <= p < s.len() ==> !(#[trigger] in_group(groups, gi, s[p]))
}

/// Between component builds: every consumed edge has both endpoints in one
/// emitted group, and no unconsumed edge touches any emitted group.
spec fn consumed_outer(
    edges: Seq<(usize, usize)>,
    consumed: Seq<bool>,
    groups: Seq<Vec<usize>>,
) -> bool {
    &&& consumed.len() == edges.len()
    &&& forall|k: int|
        0 <= k < edges.len() && (#[trigger] consumed[k]) ==> edge_in_groups(edges, groups, k)
    &&& forall|k: int|
        0 <= k < edges.len() && !(#[trigger] consumed[k]) ==> !edge_touches_groups(
            edges,
            groups,
            k,
        )
}

/// During a component build: a consumed edge may instead have both
/// endpoints in the set under construction.
spec fn consumed_inner(
    edges: Seq<(usize, usize)>,
    consumed: Seq<bool>,
    groups: Seq<Vec<usize>>,
    s: Seq<usize>,
) -> bool {
    &&& consumed.len() == edges.len()
    &&& forall|k: int|
        0 <= k < edges.len() && (#[trigger] consumed[k]) ==> edge_in_groups(edges, groups, k) || (
        s.contains(edges[k].0) && s.contains(edges[k].1))
    &&& forall|k: int|
        0 <= k < edges.len() && !(#[trigger] consumed[k]) ==> !edge_touches_groups(
            edges,
            groups,
            k,
        )
}

/// Add `x` to the vertex set under construction unless already present.
fn add_vertex(
    set: &mut Vec<usize>,
    x: usize,
    Ghost(edges): Ghost<Seq<(usize, usize)>>,
    Ghost(groups): Ghost<Seq<Vec<usize>>>,
)
    requires
        set_wf(edges, old(set)@),
        set_fresh(groups, old(set)@),
        has_edge(edges, x),
        connected(edges, x, x),
        forall|p: int|
            0 <= p < old(set)@.len() ==> connected(edges, #[trigger] old(set)@[p], x) && connected(
                edges,
                x,
                old(set)@[p],
            ),
        forall|gi: int| !in_group(groups, gi, x),
    ensures
        set_wf(edges, final(set)@),
        set_fresh(groups, final(set)@),
        final(set)@.contains(x),
        final(set)@.len() > 0,
        final(set)@.len() >= old(set)@.len(),
        forall|p: int| 0 <= p < old(set)@.len() ==> final(set)@[p] == old(set)@[p],
        forall|p: int|
            0 <= p < final(set)@.len() ==> old(set)@.contains(#[trigger] final(set)@[p])
                || final(set)@[p] == x,
{
    if !contains_vertex(set, x) {
        let ghost s0 = set@;
        set.push(x);
        proof {
            assert(set@[s0.len() as int] == x);
            assert forall|p: int, q: int|
                #![trigger set@[p], set@[q]]
                0 <= p < set@.len() && 0 <= q < set@.len() implies connected(
                edges,
                set@[p],
                set@[q],
            ) by {
                if p < s0.len() && q < s0.len() {
                    assert(connected(edges, s0[p], s0[q]));
                } else if p < s0.len() {
                    assert(connected(edges, s0[p], x));
                } else if q < s0.len() {
                    assert(connected(edges, x, s0[q]));
                }
            }
        }
    }
}

/// Partition the endpoints of the given edges into connected components.
///
/// Scans edges in order; each unconsumed edge seeds a new group, which
/// repeatedly absorbs every unconsumed edge sharing an endpoint with the
/// group until a full pass absorbs nothing. The result covers exactly the
/// vertices with at least one edge, each exactly once; each group is
/// closed under edge chains, so two members of one group are always
/// connected and a connected vertex is never left out.
pub fn group_edges(edges: &Vec<(usize, usize)>) -> (groups: Vec<Vec<usize>>)
    ensures
        groups_wf(edges@, groups@),
        forall|k: int| 0 <= k < edges@.len() ==> edge_in_groups(edges@, groups@, k),
        forall|v: usize| #[trigger] has_edge(edges@, v) ==> in_some_group(groups@, v),
        forall|gi: int, u: usize, v: usize|
            #![trigger in_group(groups@, gi, u), connected(edges@, u, v)]
            in_group(groups@, gi, u) && connected(edges@, u, v) && has_edge(edges@, v)
                ==> in_group(groups@, gi, v),
{
    let n = edges.len();
    let mut consumed: Vec<bool> = Vec::new();
    while consumed.len() < n
        invariant
            consumed@.len() <= n,
            forall|k: int| 0 <= k < consumed@.len() ==> !(#[trigger] consumed@[k]),
        decreases n - consumed@.len(),
    {
        consumed.push(false);
    }
    let mut groups: Vec<Vec<usize>> = Vec::new();
    let mut i: usize = 0;
    while i < n
        invariant
            n == edges@.len(),
            i <= n,
            consumed@.len() == n,
            forall|k: int| 0 <= k < i ==> consumed@[k],
            consumed_outer(edges@, consumed@, groups@),
            groups_wf(edges@, groups@),
        decreases n - i,
    {
        if !consumed[i] {
            consumed[i] = true;
            let e0 = edges[i].0;
            let e1 = edges[i].1;
            proof {
                assert(edges@[i as int] == (e0, e1));
                assert(has_edge(edges@, e0));
                assert(has_edge(edges@, e1));
                assert(adjacent(edges@, e0, e1));
                lemma_adjacent_symmetric(edges@, e0, e1);
                lemma_connected_refl(edges@, e0);
                lemma_connected_refl(edges@, e1);
                lemma_connected_step(edges@, e0, e0, e1);
                lemma_connected_step(edges@, e1, e1, e0);
                assert(!edge_touches_groups(edges@, groups@, i as int));
                assert forall|gi: int| !(#[trigger] in_group(groups@, gi, e0)) by {
                    assert(in_group(groups@, gi, edges@[i as int].0) == in_group(
                        groups@,
                        gi,
                        e0,
                    ));
                }
                assert forall|gi: int| !(#[trigger] in_group(groups@, gi, e1)) by {
                    assert(in_group(groups@, gi, edges@[i as int].0) == in_group(
                        groups@,
                        gi,
                        e0,
                    ));
                }
            }
            let mut set: Vec<usize> = Vec::new();
            add_vertex(&mut set, e0, Ghost(edges@), Ghost(groups@));
            add_vertex(&mut set, e1, Ghost(edges@), Ghost(groups@));
            let mut changed = true;
            while changed
                invariant
                    n == edges@.len(),
                    i < n,
                    consumed@.len() == n,
                    consumed@[i as int],
                    forall|k: int| 0 <= k < i ==> consumed@[k],
                    groups_wf(edges@, groups@),
                    set_wf(edges@, set@),
                    set_fresh(groups@, set@),
                    set@.len() > 0,
                    consumed_inner(edges@, consumed@, groups@, set@),
                    !changed ==> forall|k: int|
                        0 <= k < n && !consumed@[k] ==> !edge_touches_set(edges@, set@, k),
                decreases count_unconsumed(consumed@) + if changed {
                    1int
                } else {
                    0int
                },
            {
                changed = false;
                let ghost count0 = count_unconsumed(consumed@);
                let mut j: usize = 0;
                while j < n
                    invariant
                        n == edges@.len(),
                        i < n,
                        j <= n,
                        consumed@.len() == n,
                        consumed@[i as int],
                        forall|k: int| 0 <= k < i ==> consumed@[k],
                        groups_wf(edges@, groups@),
                        set_wf(edges@, set@),
                        set_fresh(groups@, set@),
                        set@.len() > 0,
                        consumed_inner(edges@, consumed@, groups@, set@),
                        count_unconsumed(consumed@) <= count0,
                        changed ==> count_unconsumed(consumed@) < count0,
                        !changed ==> forall|k: int|
                            0 <= k < j && !consumed@[k] ==> !edge_touches_set(edges@, set@, k),
                    decreases n - j,
                {
                    if !consumed[j] {
                        let f0 = edges[j].0;
                        let f1 = edges[j].1;
                        let touch0 = contains_vertex(&set, f0);
                        let touch1 = contains_vertex(&set, f1);
                        if touch0 || touch1 {
                            proof {
                                lemma_count_unconsumed_set(consumed@, j as int);
                            }
                            consumed[j] = true;
                            changed = true;
                            proof {
                                assert(edges@[j as int] == (f0, f1));
                                assert(has_edge(edges@, f0));
                                assert(has_edge(edges@, f1));
                                assert(adjacent(edges@, f0, f1));
                                lemma_adjacent_symmetric(edges@, f0, f1);
                                lemma_connected_refl(edges@, f0);
                                lemma_connected_refl(edges@, f1);
                                lemma_connected_step(edges@, f0, f0, f1);
                                lemma_connected_step(edges@, f1, f1, f0);
                                let t = if touch0 {
                                    f0
                                } else {
                                    f1
                                };
                                let o = if touch0 {
                                    f1
                                } else {
                                    f0
                                };
                                let q = choose|q: int| 0 <= q < set@.len() && set@[q] == t;
                                assert forall|p: int| 0 <= p < set@.len() implies connected(
                                    edges@,
                                    #[trigger] set@[p],
                                    f0,
                                ) && connected(edges@, set@[p], f1) && connected(
                                    edges@,
                                    f0,
                                    set@[p],
                                ) && connected(edges@, f1, set@[p]) by {
                                    assert(connected(edges@, set@[p], t));
                                    lemma_connected_trans(edges@, set@[p], t, o);
                                    lemma_connected_symmetric(edges@, set@[p], f0);
                                    lemma_connected_symmetric(edges@, set@[p], f1);
                                }
                                assert(!edge_touches_groups(edges@, groups@, j as int));
                                assert forall|gi: int| !(#[trigger] in_group(groups@, gi, f0)) by {
                                    assert(in_group(groups@, gi, edges@[j as int].0) == in_group(
                                        groups@,
                                        gi,
                                        f0,
                                    ));
                                }
                                assert forall|gi: int| !(#[trigger] in_group(groups@, gi, f1)) by {
                                    assert(in_group(groups@, gi, edges@[j as int].0) == in_group(
                                        groups@,
                                        gi,
                                        f0,
                                    ));
                                }
                            }
                            let ghost setb = set@;
                            add_vertex(&mut set, f0, Ghost(edges@), Ghost(groups@));
                            proof {
                                assert forall|p: int| 0 <= p < set@.len() implies connected(
                                    edges@,
                                    #[trigger] set@[p],
                                    f1,
                                ) && connected(edges@, f1, set@[p]) by {
                                    if setb.contains(set@[p]) {
                                        let r = choose|r: int|
                                            0 <= r < setb.len() && setb[r] == set@[p];
                                        assert(connected(edges@, setb[r], f1));
                                    }
                                }
                            }
                            add_vertex(&mut set, f1, Ghost(edges@), Ghost(groups@));
                            proof {
                                assert forall|k: int|
                                    0 <= k < edges@.len() && (#[trigger] consumed@[k]) implies
                                    edge_in_groups(edges@, groups@, k) || (set@.contains(
                                    edges@[k].0,
                                ) && set@.contains(edges@[k].1)) by {
                                    if k == j {
                                        assert(set@.contains(f0) && set@.contains(f1));
                                    } else if setb.contains(edges@[k].0) && setb.contains(
                                        edges@[k].1,
                                    ) {
                                        let r0 = choose|r: int|
                                            0 <= r < setb.len() && setb[r] == edges@[k].0;
                                        let r1 = choose|r: int|
                                            0 <= r < setb.len() && setb[r] == edges@[k].1;
                                        assert(set@[r0] == edges@[k].0);
                                        assert(set@[r1] == edges@[k].1);
                                    }
                                }
                            }
                        }
                    }
                    j = j + 1;
                }
            }
            let ghost g0 = groups@;
            groups.push(set);
            proof {
                assert forall|gi: int, v: usize|
                    #![trigger in_group(groups@, gi, v)]
                    in_group(groups@, gi, v) implies (gi == g0.len() || in_group(g0, gi, v)) && (gi
                    == g0.len() ==> set@.contains(v)) by {
                    if gi < g0.len() {
                        assert(groups@[gi] == g0[gi]);
                    }
                }
                assert forall|gi: int, v: usize| in_group(g0, gi, v) implies #[trigger] in_group(
                    groups@,
                    gi,
                    v,
                ) by {
                    assert(groups@[gi] == g0[gi]);
                }
                assert(in_group(groups@, g0.len() as int, set@[0]));
                assert forall|k: int|
                    0 <= k < edges@.len() && (#[trigger] consumed@[k]) implies edge_in_groups(
                    edges@,
                    groups@,
                    k,
                ) by {
                    if edge_in_groups(edges@, g0, k) {
                        let gi = choose|gi: int|
                            #![trigger in_group(g0, gi, edges@[k].0)]
                            in_group(g0, gi, edges@[k].0) && in_group(g0, gi, edges@[k].1);
                        assert(in_group(groups@, gi, edges@[k].0) && in_group(
                            groups@,
                            gi,
                            edges@[k].1,
                        ));
                    } else {
                        assert(set@.contains(edges@[k].0) && set@.contains(edges@[k].1));
                        assert(in_group(groups@, g0.len() as int, edges@[k].0) && in_group(
                            groups@,
                            g0.len() as int,
                            edges@[k].1,
                        ));
                    }
                }
                assert forall|k: int|
                    0 <= k < edges@.len() && !(#[trigger] consumed@[k]) implies
                    !edge_touches_groups(edges@, groups@, k) by {
                    assert(!edge_touches_groups(edges@, g0, k));
                    assert(!edge_touches_set(edges@, set@, k));
                    assert forall|gi: int| !(#[trigger] in_group(groups@, gi, edges@[k].0))
                        && !in_group(groups@, gi, edges@[k].1) by {
                        if 0 <= gi < g0.len() {
                            assert(!in_group(g0, gi, edges@[k].0) && !in_group(
                                g0,
                                gi,
                                edges@[k].1,
                            ));
                        }
                    }
                }
            }
        }
        i = i + 1;
    }
    proof {
        assert forall|k: int| 0 <= k < edges@.len() implies edge_in_groups(
            edges@,
            groups@,
            k,
        ) by {
            assert(consumed@[k]);
        }
        assert forall|v: usize| #[trigger] has_edge(edges@, v) implies in_some_group(
            groups@,
            v,
        ) by {
            let k = choose|k: int|
                0 <= k < edges@.len() && ((#[trigger] edges@[k]).0 == v || edges@[k].1 == v);
            assert(consumed@[k]);
            assert(edge_in_groups(edges@, groups@, k));
            let gi = choose|gi: int|
                #![trigger in_group(groups@, gi, edges@[k].0)]
                in_group(groups@, gi, edges@[k].0) && in_group(groups@, gi, edges@[k].1);
            assert(in_group(groups@, gi, v));
        }
        assert forall|gi: int, u: usize, v: usize|
            #![trigger in_group(groups@, gi, u), connected(edges@, u, v)]
            in_group(groups@, gi, u) && connected(edges@, u, v) && has_edge(edges@, v) implies
            in_group(groups@, gi, v) by {
            let m = choose|m: nat| reach(edges@, u, v, m);
            lemma_component_closed(edges@, groups@, gi, u, v, m);
        }
    }
    groups
}

} // verus!

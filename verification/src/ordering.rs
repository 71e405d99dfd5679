use vstd::prelude::*;
use vstd::multiset::Multiset;
use crate::image_info::ImageInfo;
use crate::grouping::{
    group_edges, has_similar, in_group, in_some_group, lemma_adjacent_iff_similar,
    lemma_connected_iff_similar_connected, lemma_has_edge_iff_has_similar, similar_connected,
    similarity_edges,
};

verus! {

/// Group members are ordered by modification time, most recent first.
pub open spec fn sorted_by_modified_desc(imgs: Seq<ImageInfo>, g: Seq<usize>) -> bool {
    forall|p: int, q: int|
        #![trigger g[p], g[q]]
        0 <= p < q < g.len() ==> imgs[g[p] as int].modified >= imgs[g[q] as int].modified
}

/// Groups are ordered by the modification time of each group's first
/// (most recent) member, most recent first.
pub open spec fn groups_sorted_desc(imgs: Seq<ImageInfo>, groups: Seq<Vec<usize>>) -> bool {
    forall|p: int, q: int|
        #![trigger groups[p], groups[q]]
        0 <= p < q < groups.len() ==> imgs[groups[p]@[0] as int].modified
            >= imgs[groups[q]@[0] as int].modified
}

/// Sort record indices by modification time, most recent first: the result
/// holds exactly the same indices, as a multiset, in sorted order.
pub fn sort_indices_desc(images: &Vec<ImageInfo>, v: Vec<usize>) -> (r: Vec<usize>)
    requires
        forall|p: int| 0 <= p < v@.len() ==> (#[trigger] v@[p]) < images@.len(),
    ensures
        r@.to_multiset() == v@.to_multiset(),
        r@.len() == v@.len(),
        sorted_by_modified_desc(images@, r@),
        forall|p: int| 0 <= p < r@.len() ==> (#[trigger] r@[p]) < images@.len(),
        forall|x: usize| r@.contains(x) == v@.contains(x),
        r@.no_duplicates() == v@.no_duplicates(),
{
    broadcast use vstd::seq_lib::group_to_multiset_ensures;

    let ghost v0 = v@;
    let mut src = v;
    let mut out: Vec<usize> = Vec::new();
    while src.len() > 0
        invariant
            forall|p: int| 0 <= p < src@.len() ==> (#[trigger] src@[p]) < images@.len(),
            forall|p: int| 0 <= p < out@.len() ==> (#[trigger] out@[p]) < images@.len(),
            out@.to_multiset().add(src@.to_multiset()) =~= v0.to_multiset(),
            out@.len() + src@.len() == v0.len(),
            sorted_by_modified_desc(images@, out@),
            forall|p: int, q: int|
                #![trigger out@[p], src@[q]]
                0 <= p < out@.len() && 0 <= q < src@.len() ==> images@[out@[p] as int].modified
                    >= images@[src@[q] as int].modified,
        decreases src@.len(),
    {
        let mut m: usize = 0;
        let mut k: usize = 1;
        while k < src.len()
            invariant
                m < k <= src@.len(),
                src@.len() > 0,
                forall|p: int|
                    0 <= p < k ==> images@[src@[m as int] as int].modified >= images@[(
                    #[trigger] src@[p]) as int].modified,
                forall|p: int| 0 <= p < src@.len() ==> (#[trigger] src@[p]) < images@.len(),
            decreases src@.len() - k,
        {
            if images[src[k]].modified > images[src[m]].modified {
                m = k;
            }
            k = k + 1;
        }
        let ghost src_before = src@;
        let ghost out_before = out@;
        let x = src.remove(m);
        out.push(x);
        proof {
            broadcast use vstd::seq_lib::group_to_multiset_ensures;
            broadcast use vstd::multiset::group_multiset_axioms;

            assert(src_before.contains(x));
            assert(out@ == out_before.push(x));
            assert(out@.to_multiset() =~= out_before.to_multiset().insert(x));
            assert(src@ == src_before.remove(m as int));
            assert(src@.to_multiset() =~= src_before.to_multiset().remove(x));
            assert(out@.to_multiset().add(src@.to_multiset()) =~= v0.to_multiset());
            assert forall|p: int, q: int|
                #![trigger out@[p], src@[q]]
                0 <= p < out@.len() && 0 <= q < src@.len() implies images@[out@[p] as int].modified
                >= images@[src@[q] as int].modified by {
                if q < m {
                    assert(src@[q] == src_before[q]);
                } else {
                    assert(src@[q] == src_before[q + 1]);
                }
                if p < out@.len() - 1 {
                    assert(images@[out@[p] as int].modified >= images@[x as int].modified);
                }
            }
        }
    }
    proof {
        assert(src@.to_multiset() =~= Multiset::empty());
        assert(out@.to_multiset() =~= v0.to_multiset());
        assert forall|x: usize| out@.contains(x) == v0.contains(x) by {
            assert(out@.contains(x) == (out@.to_multiset().count(x) > 0));
            assert(v0.contains(x) == (v0.to_multiset().count(x) > 0));
        }
        if out@.no_duplicates() {
            out@.lemma_multiset_has_no_duplicates();
            v0.lemma_multiset_has_no_duplicates_conv();
        }
        if v0.no_duplicates() {
            v0.lemma_multiset_has_no_duplicates();
            out@.lemma_multiset_has_no_duplicates_conv();
        }
    }
    out
}

/// `g` is, by value, one of the groups of `family`.
spec fn one_of(family: Seq<Vec<usize>>, g: Vec<usize>) -> bool {
    exists|q: int| 0 <= q < family.len() && g == #[trigger] family[q]
}

/// Compute the similarity groups of the given records: the connected
/// components of the graph whose edges are pairs of records at fingerprint
/// distance strictly below `threshold` over `bit_count` bits. Each group
/// lists record indices by modification time, most recent first; groups are
/// ordered by their most recent member, most recent first. Records without
/// a similar partner appear in no group.
pub fn similar_groups(images: &Vec<ImageInfo>, threshold: u64, bit_count: u32) -> (groups: Vec<
    Vec<usize>,
>)
    requires
        bit_count <= 64,
    ensures
        forall|gi: int| 0 <= gi < groups@.len() ==> (#[trigger] groups@[gi])@.len() > 0,
        forall|gi: int| 0 <= gi < groups@.len() ==> (#[trigger] groups@[gi])@.no_duplicates(),
        forall|g1: int, g2: int, v: usize|
            #![trigger in_group(groups@, g1, v), in_group(groups@, g2, v)]
            in_group(groups@, g1, v) && in_group(groups@, g2, v) ==> g1 == g2,
        forall|gi: int, v: usize|
            #[trigger] in_group(groups@, gi, v) ==> v < images@.len() && has_similar(
                images@,
                threshold,
                bit_count as nat,
                v,
            ),
        forall|v: usize|
            v < images@.len() && #[trigger] has_similar(images@, threshold, bit_count as nat, v)
                ==> in_some_group(groups@, v),
        forall|gi: int, u: usize, v: usize|
            #![trigger in_group(groups@, gi, u), in_group(groups@, gi, v)]
            in_group(groups@, gi, u) && in_group(groups@, gi, v) ==> similar_connected(
                images@,
                threshold,
                bit_count as nat,
                u,
                v,
            ),
        forall|gi: int, u: usize, v: usize|
            #![trigger in_group(groups@, gi, u), similar_connected(images@, threshold, bit_count as nat, u, v)]
            in_group(groups@, gi, u) && similar_connected(images@, threshold, bit_count as nat, u, v)
                && has_similar(images@, threshold, bit_count as nat, v) ==> in_group(
                groups@,
                gi,
                v,
            ),
        forall|gi: int|
            0 <= gi < groups@.len() ==> sorted_by_modified_desc(
                images@,
                (#[trigger] groups@[gi])@,
            ),
        groups_sorted_desc(images@, groups@),
{
    let ghost imgs = images@;
    let ghost bits = bit_count as nat;
    let edges = similarity_edges(images, threshold, bit_count);
    let raw = group_edges(&edges);
    let ghost raw0 = raw@;
    proof {
        lemma_adjacent_iff_similar(imgs, threshold, bits, edges@);
        lemma_has_edge_iff_has_similar(imgs, threshold, bits, edges@);
        lemma_connected_iff_similar_connected(imgs, threshold, bits, edges@);
    }
    // Sort each group's members, keeping the groups in place.
    let mut rem = raw;
    let mut mid: Vec<Vec<usize>> = Vec::new();
    while rem.len() > 0
        invariant
            imgs == images@,
            bits == bit_count as nat,
            mid@.len() + rem@.len() == raw0.len(),
            crate::grouping::groups_wf(edges@, raw0),
            forall|p: int| 0 <= p < rem@.len() ==> rem@[p] == raw0[mid@.len() + p],
            forall|gi: int, v: usize|
                #[trigger] in_group(raw0, gi, v) ==> v < imgs.len() && has_similar(
                    imgs,
                    threshold,
                    bits,
                    v,
                ),
            forall|p: int| 0 <= p < mid@.len() ==> (#[trigger] mid@[p])@.len() > 0,
            forall|p: int| 0 <= p < mid@.len() ==> (#[trigger] mid@[p])@.no_duplicates(),
            forall|p: int|
                0 <= p < mid@.len() ==> sorted_by_modified_desc(imgs, (#[trigger] mid@[p])@),
            forall|p: int, x: usize|
                #![trigger mid@[p]@.contains(x)]
                0 <= p < mid@.len() ==> mid@[p]@.contains(x) == raw0[p]@.contains(x),
        decreases rem@.len(),
    {
        let ghost d = mid@.len() as int;
        let g = rem.remove(0);
        proof {
            assert(g == raw0[d]);
            assert(in_group(raw0, d, raw0[d]@[0]) ==> raw0[d]@.len() > 0);
            assert forall|p: int| 0 <= p < g@.len() implies (#[trigger] g@[p]) < imgs.len() by {
                assert(in_group(raw0, d, g@[p]));
            }
        }
        let gs = sort_indices_desc(images, g);
        proof {
            assert(raw0[d]@.len() > 0);
            assert(gs@.len() == raw0[d]@.len());
        }
        mid.push(gs);
        proof {
            assert forall|p: int| 0 <= p < rem@.len() implies rem@[p] == raw0[mid@.len() + p] by {
            }
        }
    }
    let ghost mid0 = mid@;
    proof {
        // membership in the sorted groups coincides with membership in the
        // raw groups, position by position
        assert forall|gi: int, v: usize|
            #![trigger in_group(mid0, gi, v)]
            #![trigger in_group(raw0, gi, v)]
            in_group(mid0, gi, v) == in_group(raw0, gi, v) by {
            if 0 <= gi < mid0.len() {
                assert(mid0[gi]@.contains(v) == raw0[gi]@.contains(v));
            }
        }
        assert forall|v: usize|
            v < imgs.len() && #[trigger] has_similar(imgs, threshold, bits, v) implies
            in_some_group(mid0, v) by {
            assert(in_some_group(raw0, v));
            let gi = choose|gi: int| in_group(raw0, gi, v);
            assert(in_group(mid0, gi, v));
        }
        assert forall|p: int| 0 <= p < mid0.len() implies #[trigger] one_of(mid0, mid0[p]) by {
            assert(0 <= p < mid0.len() && mid0[p] == mid0[p]);
        }
    }
    // Order the groups by their most recent member.
    let mut out: Vec<Vec<usize>> = Vec::new();
    while mid.len() > 0
        invariant
            imgs == images@,
            bits == bit_count as nat,
            forall|p: int| 0 <= p < mid@.len() ==> #[trigger] one_of(mid0, mid@[p]),
            forall|p: int| 0 <= p < out@.len() ==> #[trigger] one_of(mid0, out@[p]),
            // facts carried about the sorted groups
            forall|p: int| 0 <= p < mid0.len() ==> (#[trigger] mid0[p])@.len() > 0,
            forall|p: int| 0 <= p < mid0.len() ==> (#[trigger] mid0[p])@.no_duplicates(),
            forall|p: int|
                0 <= p < mid0.len() ==> sorted_by_modified_desc(imgs, (#[trigger] mid0[p])@),
            forall|gi: int, v: usize|
                #[trigger] in_group(mid0, gi, v) ==> v < imgs.len() && has_similar(
                    imgs,
                    threshold,
                    bits,
                    v,
                ),
            // disjointness within and across the two collections
            forall|g1: int, g2: int, v: usize|
                #![trigger in_group(out@, g1, v), in_group(out@, g2, v)]
                in_group(out@, g1, v) && in_group(out@, g2, v) ==> g1 == g2,
            forall|g1: int, g2: int, v: usize|
                #![trigger in_group(out@, g1, v), in_group(mid@, g2, v)]
                in_group(out@, g1, v) ==> !in_group(mid@, g2, v),
            forall|g1: int, g2: int, v: usize|
                #![trigger in_group(mid@, g1, v), in_group(mid@, g2, v)]
                in_group(mid@, g1, v) && in_group(mid@, g2, v) ==> g1 == g2,
            // every vertex of the sorted groups is still present
            forall|v: usize|
                #[trigger] in_some_group(mid0, v) ==> in_some_group(out@, v) || in_some_group(
                    mid@,
                    v,
                ),
            // ordering
            groups_sorted_desc(imgs, out@),
            forall|p: int, q: int|
                #![trigger out@[p], mid@[q]]
                0 <= p < out@.len() && 0 <= q < mid@.len() ==> imgs[out@[p]@[0] as int].modified
                    >= imgs[mid@[q]@[0] as int].modified,
        decreases mid@.len(),
    {
        let mut m: usize = 0;
        let mut k: usize = 1;
        proof {
            assert forall|p: int| 0 <= p < mid@.len() implies (#[trigger] mid@[p])@.len() > 0
                && mid@[p]@[0] < imgs.len() by {
                assert(one_of(mid0, mid@[p]));
                let q = choose|q: int| 0 <= q < mid0.len() && mid@[p] == mid0[q];
                assert(mid0[q]@.len() > 0);
                assert(in_group(mid0, q, mid0[q]@[0]));
            }
        }
        while k < mid.len()
            invariant
                imgs == images@,
                m < k <= mid@.len(),
                mid@.len() > 0,
                forall|p: int|
                    0 <= p < mid@.len() ==> (#[trigger] mid@[p])@.len() > 0 && mid@[p]@[0]
                        < imgs.len(),
                forall|p: int|
                    0 <= p < k ==> imgs[mid@[m as int]@[0] as int].modified >= imgs[(
                    #[trigger] mid@[p])@[0] as int].modified,
            decreases mid@.len() - k,
        {
            if images[mid[k][0]].modified > images[mid[m][0]].modified {
                m = k;
            }
            k = k + 1;
        }
        let ghost mid_before = mid@;
        let ghost out_before = out@;
        let g = mid.remove(m);
        out.push(g);
        proof {
            assert(g == mid_before[m as int]);
            assert(out@ == out_before.push(g));
            assert forall|p: int| 0 <= p < mid@.len() implies #[trigger] one_of(
                mid0,
                mid@[p],
            ) by {
                if p < m {
                    assert(mid@[p] == mid_before[p]);
                    assert(one_of(mid0, mid_before[p]));
                } else {
                    assert(mid@[p] == mid_before[p + 1]);
                    assert(one_of(mid0, mid_before[p + 1]));
                }
            }
            assert forall|p: int| 0 <= p < out@.len() implies #[trigger] one_of(
                mid0,
                out@[p],
            ) by {
                if p < out_before.len() {
                    assert(out@[p] == out_before[p]);
                    assert(one_of(mid0, out_before[p]));
                } else {
                    assert(out@[p] == mid_before[m as int]);
                    assert(one_of(mid0, mid_before[m as int]));
                }
            }
            // membership moved wholesale from `mid` to `out`
            assert forall|g1: int, v: usize| #[trigger]
                in_group(mid@, g1, v) implies in_group(
                mid_before,
                if g1 < m {
                    g1
                } else {
                    g1 + 1
                },
                v,
            ) by {
                if g1 < m {
                    assert(mid@[g1] == mid_before[g1]);
                } else {
                    assert(mid@[g1] == mid_before[g1 + 1]);
                }
            }
            assert forall|g1: int, v: usize| #[trigger]
                in_group(out@, g1, v) implies (g1 < out_before.len() && in_group(
                out_before,
                g1,
                v,
            )) || (g1 == out_before.len() && in_group(mid_before, m as int, v)) by {
                if g1 < out_before.len() {
                    assert(out@[g1] == out_before[g1]);
                } else {
                    assert(out@[g1] == mid_before[m as int]);
                }
            }
            assert forall|v: usize| #[trigger]
                in_some_group(mid0, v) implies in_some_group(out@, v) || in_some_group(
                mid@,
                v,
            ) by {
                if in_some_group(out_before, v) {
                    let g1 = choose|g1: int| in_group(out_before, g1, v);
                    assert(out@[g1] == out_before[g1]);
                    assert(in_group(out@, g1, v));
                } else {
                    let g1 = choose|g1: int| in_group(mid_before, g1, v);
                    if g1 == m {
                        assert(out@[out_before.len() as int] == mid_before[m as int]);
                        assert(in_group(out@, out_before.len() as int, v));
                    } else if g1 < m {
                        assert(mid@[g1] == mid_before[g1]);
                        assert(in_group(mid@, g1, v));
                    } else {
                        assert(mid@[g1 - 1] == mid_before[g1]);
                        assert(in_group(mid@, g1 - 1, v));
                    }
                }
            }
            assert forall|p: int, q: int|
                #![trigger out@[p], mid@[q]]
                0 <= p < out@.len() && 0 <= q < mid@.len() implies imgs[out@[p]@[0] as int].modified
                >= imgs[mid@[q]@[0] as int].modified by {
                let qb: int = if q < m {
                    q
                } else {
                    q + 1
                };
                assert(mid@[q] == mid_before[qb]);
                assert(imgs[mid_before[m as int]@[0] as int].modified
                    >= imgs[mid_before[qb]@[0] as int].modified);
                if p < out_before.len() {
                    assert(out@[p] == out_before[p]);
                    assert(imgs[out_before[p]@[0] as int].modified
                        >= imgs[mid_before[qb]@[0] as int].modified);
                } else {
                    assert(out@[p] == mid_before[m as int]);
                }
            }
        }
    }
    proof {
        // transfer the component facts from the sorted groups to the output
        assert forall|gi: int, v: usize| #[trigger]
            in_group(out@, gi, v) implies v < imgs.len() && has_similar(imgs, threshold, bits, v)
            && one_of(mid0, out@[gi]) by {
            assert(one_of(mid0, out@[gi]));
            let q = choose|q: int| 0 <= q < mid0.len() && out@[gi] == mid0[q];
            assert(in_group(mid0, q, v));
        }
        assert forall|gi: int, u: usize, v: usize|
            #![trigger in_group(out@, gi, u), in_group(out@, gi, v)]
            in_group(out@, gi, u) && in_group(out@, gi, v) implies similar_connected(
            imgs,
            threshold,
            bits,
            u,
            v,
        ) by {
            assert(one_of(mid0, out@[gi]));
            let q = choose|q: int| 0 <= q < mid0.len() && out@[gi] == mid0[q];
            assert(in_group(mid0, q, u) && in_group(mid0, q, v));
            assert(in_group(raw0, q, u) && in_group(raw0, q, v));
        }
        assert forall|gi: int, u: usize, v: usize|
            #![trigger in_group(out@, gi, u), similar_connected(imgs, threshold, bits, u, v)]
            in_group(out@, gi, u) && similar_connected(imgs, threshold, bits, u, v) && has_similar(
                imgs,
                threshold,
                bits,
                v,
            ) implies in_group(out@, gi, v) by {
            assert(one_of(mid0, out@[gi]));
            let q = choose|q: int| 0 <= q < mid0.len() && out@[gi] == mid0[q];
            assert(in_group(mid0, q, u));
            assert(in_group(raw0, q, u));
            assert(in_group(raw0, q, v));
            assert(in_group(mid0, q, v));
            assert(out@[gi]@.contains(v));
        }
        assert forall|gi: int| 0 <= gi < out@.len() implies (#[trigger] out@[gi])@.len() > 0
            && out@[gi]@.no_duplicates() && sorted_by_modified_desc(imgs, out@[gi]@) by {
            assert(one_of(mid0, out@[gi]));
            let q = choose|q: int| 0 <= q < mid0.len() && out@[gi] == mid0[q];
            assert(mid0[q]@.len() > 0 && mid0[q]@.no_duplicates());
            assert(sorted_by_modified_desc(imgs, mid0[q]@));
        }
    }
    out
}

} // verus!

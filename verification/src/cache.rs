use vstd::prelude::*;
use crate::image_info::ImageInfo;

verus! {

/// A candidate path together with the live file's metadata: modification
/// time in seconds and byte size, the cheap change-detection proxy.
pub struct PathMeta {
    pub path: String,
    pub modified: u64,
    pub file_size: u64,
}

/// The index of the first cache record whose path equals `path`, or -1
/// when no record matches.
pub open spec fn lookup(cache: Seq<ImageInfo>, path: Seq<char>) -> int
    decreases cache.len(),
{
    if cache.len() == 0 {
        -1
    } else if cache[0].path@ == path {
        0
    } else {
        let r = lookup(cache.drop_first(), path);
        if r < 0 {
            -1
        } else {
            r + 1
        }
    }
}

/// A cache entry is fresh for a live file iff one exists for its path and
/// its stored modification time and size both equal the file's current
/// metadata; any mismatch makes it stale.
pub open spec fn is_fresh(p: PathMeta, cache: Seq<ImageInfo>) -> bool {
    let j = lookup(cache, p.path@);
    j >= 0 && cache[j].modified == p.modified && cache[j].file_size == p.file_size
}

proof fn lemma_lookup_match(cache: Seq<ImageInfo>, path: Seq<char>, j: int)
    requires
        0 <= j < cache.len(),
        forall|q: int| 0 <= q < j ==> (#[trigger] cache[q].path)@ != path,
        cache[j].path@ == path,
    ensures
        lookup(cache, path) == j,
    decreases j,
{
    if j > 0 {
        lemma_lookup_match(cache.drop_first(), path, j - 1);
    }
}

proof fn lemma_lookup_none(cache: Seq<ImageInfo>, path: Seq<char>)
    requires
        forall|q: int| 0 <= q < cache.len() ==> (#[trigger] cache[q].path)@ != path,
    ensures
        lookup(cache, path) < 0,
    decreases cache.len(),
{
    if cache.len() > 0 {
        lemma_lookup_none(cache.drop_first(), path);
    }
}

/// Find the first cache record for the given path, if any.
fn find_cached(cache: &Vec<ImageInfo>, path: &String) -> (r: Option<usize>)
    ensures
        match r {
            Some(j) => j == lookup(cache@, path@) && j < cache@.len(),
            None => lookup(cache@, path@) < 0,
        },
{
    let mut j: usize = 0;
    while j < cache.len()
        invariant
            j <= cache@.len(),
            forall|q: int| 0 <= q < j ==> (#[trigger] cache@[q].path)@ != path@,
        decreases cache@.len() - j,
    {
        if cache[j].path == *path {
            proof {
                lemma_lookup_match(cache@, path@, j as int);
            }
            return Some(j);
        }
        j = j + 1;
    }
    proof {
        lemma_lookup_none(cache@, path@);
    }
    None
}

/// Split candidate paths by cache freshness. A path with a fresh cache
/// entry yields that entry's record verbatim, hash included, with no look
/// at the image content; every other path is handed back for
/// recomputation. Both outputs keep the input order.
pub fn split_cached_and_nocached(paths: Vec<PathMeta>, cache: &Vec<ImageInfo>) -> (r: (
    Vec<ImageInfo>,
    Vec<PathMeta>,
))
    ensures
        r.1@ == paths@.filter(|p: PathMeta| !is_fresh(p, cache@)),
        r.0@.map_values(|im: ImageInfo| im@) == paths@.filter(
            |p: PathMeta| is_fresh(p, cache@),
        ).map_values(|p: PathMeta| cache@[lookup(cache@, p.path@)]@),
{
    broadcast use vstd::seq_lib::group_filter_ensures;

    let ghost paths0 = paths@;
    let ghost stale = |p: PathMeta| !is_fresh(p, cache@);
    let ghost fresh = |p: PathMeta| is_fresh(p, cache@);
    let ghost entry_of = |p: PathMeta| cache@[lookup(cache@, p.path@)]@;
    let mut rest = paths;
    let mut cached: Vec<ImageInfo> = Vec::new();
    let mut nocached: Vec<PathMeta> = Vec::new();
    proof {
        assert(paths0.take(0) =~= Seq::<PathMeta>::empty());
        assert(nocached@ =~= paths0.take(0).filter(stale));
        assert(cached@.map_values(|im: ImageInfo| im@) =~= paths0.take(0).filter(
            fresh,
        ).map_values(entry_of));
    }
    while rest.len() > 0
        invariant
            rest@.len() <= paths0.len(),
            rest@ == paths0.skip(paths0.len() - rest@.len()),
            nocached@ == paths0.take(paths0.len() - rest@.len()).filter(stale),
            cached@.map_values(|im: ImageInfo| im@) == paths0.take(
                paths0.len() - rest@.len(),
            ).filter(fresh).map_values(entry_of),
            stale == (|p: PathMeta| !is_fresh(p, cache@)),
            fresh == (|p: PathMeta| is_fresh(p, cache@)),
            entry_of == (|p: PathMeta| cache@[lookup(cache@, p.path@)]@),
        decreases rest@.len(),
    {
        let ghost i = paths0.len() - rest@.len();
        let ghost cached_before = cached@;
        let ghost nocached_before = nocached@;
        let meta = rest.remove(0);
        proof {
            assert(meta == paths0[i]);
            assert(rest@ =~= paths0.skip(i + 1));
            assert(paths0.take(i + 1) =~= paths0.take(i).push(meta));
        }
        let mut used_cache = false;
        match find_cached(cache, &meta.path) {
            Some(j) => {
                if cache[j].modified == meta.modified && cache[j].file_size == meta.file_size {
                    cached.push(cache[j].clone());
                    used_cache = true;
                    proof {
                        assert(is_fresh(meta, cache@));
                        assert(entry_of(meta) == cache@[j as int]@);
                        assert(cached@.map_values(|im: ImageInfo| im@) =~= cached_before.map_values(
                            |im: ImageInfo| im@,
                        ).push(entry_of(meta)));
                    }
                }
            },
            None => {
                proof {
                    assert(!is_fresh(meta, cache@));
                }
            },
        }
        if !used_cache {
            nocached.push(meta);
        }
        proof {
            reveal(Seq::filter);
            let pre = paths0.take(i);
            assert(pre.push(meta).filter(stale) =~= pre.filter(stale) + (if stale(meta) {
                seq![meta]
            } else {
                Seq::<PathMeta>::empty()
            })) by {
                assert(pre.push(meta).drop_last() =~= pre);
            }
            assert(pre.push(meta).filter(fresh) =~= pre.filter(fresh) + (if fresh(meta) {
                seq![meta]
            } else {
                Seq::<PathMeta>::empty()
            })) by {
                assert(pre.push(meta).drop_last() =~= pre);
            }
            if used_cache {
                assert(fresh(meta) && !stale(meta));
                assert(nocached@ =~= paths0.take(i + 1).filter(stale));
                assert(pre.push(meta).filter(fresh) =~= pre.filter(fresh).push(meta));
                assert((pre.filter(fresh).push(meta)).map_values(entry_of) =~= pre.filter(
                    fresh,
                ).map_values(entry_of).push(entry_of(meta)));
                assert(cached@.map_values(|im: ImageInfo| im@) =~= paths0.take(i + 1).filter(
                    fresh,
                ).map_values(entry_of));
            } else {
                assert(stale(meta) && !fresh(meta));
                assert(pre.push(meta).filter(stale) =~= pre.filter(stale).push(meta));
                assert(nocached@ =~= paths0.take(i + 1).filter(stale));
                assert(pre.push(meta).filter(fresh) =~= pre.filter(fresh));
                assert(cached@.map_values(|im: ImageInfo| im@) =~= paths0.take(i + 1).filter(
                    fresh,
                ).map_values(entry_of));
            }
        }
    }
    proof {
        assert(paths0.take(paths0.len() as int) =~= paths0);
    }
    (cached, nocached)
}

/// When every candidate path has a fresh cache entry, the split hands
/// nothing back for recomputation: no image content is looked at, and a
/// rerun on an unchanged file set reuses every record.
pub proof fn lemma_all_fresh_no_recompute(paths: Seq<PathMeta>, cache: Seq<ImageInfo>)
    requires
        forall|k: int| 0 <= k < paths.len() ==> is_fresh(#[trigger] paths[k], cache),
    ensures
        paths.filter(|p: PathMeta| !is_fresh(p, cache)).len() == 0,
    decreases paths.len(),
{
    reveal(Seq::filter);
    if paths.len() > 0 {
        assert(paths.drop_last() =~= paths.subrange(0, paths.len() - 1));
        lemma_all_fresh_no_recompute(paths.drop_last(), cache);
    }
}

} // verus!

//! The duplicate-detection pipeline.
//!
//! Entries are clustered in two stages: first by byte size, then, within each
//! size bucket, by content digest. Clusters that keep at least two members
//! become duplicate groups. The pipeline works on plain values: callers that
//! scan a live volume hash their files through [`crate::hash`] and feed the
//! digests in; [`run`] does the whole job for contents held in memory.

use crate::error::AppError;
use crate::globmatch::{
    glob_compile_error, glob_valid, matcher_admits, path_admitted, spec_matcher_text, MatchConfig,
};
use crate::groups::{
    bucket_entries, bucket_of, cluster, distinct_paths, entry_key, has_bucket_for,
    lemma_cluster_paths_distinct, lemma_cluster_two, lemma_clusters_share_no_path,
    lemma_filter_elems, lemma_filter_pair, lemma_filter_push, lemma_filter_subseq_pair,
    HashedEntry,
};
use crate::hash::{crc32_of, crc64_of, fuzzy_hash, fuzzy_sample, strict_hash};
use vstd::prelude::*;

verus! {

/// One set of confirmed duplicates: the common byte size and the paths whose
/// contents share a digest.
#[derive(Debug, Clone)]
pub struct DuplicateGroup {
    pub size: u64,
    pub paths: Vec<String>,
}

/// The hashing mode of a scan. `Strict` digests every byte and is the only
/// mode the link action accepts; `Fuzzy` digests a logarithmic sample for
/// fast rough clustering and is never collision-proof.
#[derive(Debug)]
pub enum Comparison {
    Fuzzy,
    Strict,
}

/// The digest a content receives under a comparison mode: the strict
/// 32-bit whole-content checksum widened, or the 64-bit fuzzy digest.
pub open spec fn content_digest(content: Seq<u8>, comparison: Comparison) -> u64 {
    match comparison {
        Comparison::Strict => crc32_of(content) as u64,
        Comparison::Fuzzy => crc64_of(fuzzy_sample(content)),
    }
}

/// The paths of a sequence of entries, in order.
pub open spec fn seq_paths(s: Seq<HashedEntry>) -> Seq<String> {
    s.map_values(|e: HashedEntry| e.path)
}

/// Whether a group reports exactly one digest cluster of the entries.
pub open spec fn is_cluster_group(entries: Seq<HashedEntry>, g: DuplicateGroup) -> bool {
    exists|h: u64| g.paths@ == seq_paths(#[trigger] cluster(entries, g.size, h))
}

/// Whether some group of `groups` reports exactly the cluster of size `s`
/// and digest `h`.
pub open spec fn has_cluster_group(
    groups: Seq<DuplicateGroup>,
    entries: Seq<HashedEntry>,
    s: u64,
    h: u64,
) -> bool {
    exists|g: int|
        0 <= g < groups.len() && (#[trigger] groups[g]).size == s && groups[g].paths@ == seq_paths(
            cluster(entries, s, h),
        )
}

/// No two groups share a path, and no group names a path twice: each file
/// stands in at most one reported group. For a listing that names each file
/// once this makes every cluster reported at most once.
pub open spec fn groups_disjoint(groups: Seq<DuplicateGroup>) -> bool {
    &&& forall|g1: int, g2: int, p1: int, p2: int|
        0 <= g1 < g2 < groups.len() && 0 <= p1 < groups[g1].paths@.len() && 0 <= p2
            < groups[g2].paths@.len() ==> (#[trigger] groups[g1].paths@[p1]) != (
        #[trigger] groups[g2].paths@[p2])
    &&& forall|g: int, p1: int, p2: int|
        0 <= g < groups.len() && 0 <= p1 < p2 < groups[g].paths@.len() ==> (
        #[trigger] groups[g].paths@[p1]) != (#[trigger] groups[g].paths@[p2])
}

/// Clusters the entries by size and digest and reports every cluster of at
/// least two entries as a duplicate group, in unspecified order. Each group
/// is one such cluster; for a listing that names each file once, every
/// cluster is reported at most once and no path stands in two groups.
pub fn find_duplicate_groups(entries: Vec<HashedEntry>) -> (r: Vec<DuplicateGroup>)
    ensures
        forall|g: int| 0 <= g < r@.len() ==> (#[trigger] r@[g]).paths@.len() >= 2,
        forall|g: int| 0 <= g < r@.len() ==> is_cluster_group(entries@, #[trigger] r@[g]),
        forall|s: u64, h: u64|
            (#[trigger] cluster(entries@, s, h)).len() >= 2 ==> has_cluster_group(
                r@,
                entries@,
                s,
                h,
            ),
        distinct_paths(entries@) ==> groups_disjoint(r@),
{
    let ghost all = entries@;
    let mut sb = bucket_entries(entries, false);
    let mut result: Vec<DuplicateGroup> = Vec::new();
    proof {
        assert forall|s: u64, h: u64|
            (#[trigger] cluster(all, s, h)).len() >= 2 implies has_cluster_group(
            result@,
            all,
            s,
            h,
        ) || has_bucket_for(sb@, s, false) by {
            let stage1 = bucket_of(all, s, false);
            let w = cluster(all, s, h)[0];
            lemma_filter_elems(stage1, |e: HashedEntry| entry_key(e, true) == h);
            assert(stage1.contains(w));
            lemma_filter_elems(all, |e: HashedEntry| entry_key(e, false) == s);
            let n = choose|n: int| 0 <= n < all.len() && all[n] == w;
            assert(entry_key(all[n], false) == s);
        }
    }
    loop
        invariant
            forall|g: int| 0 <= g < result@.len() ==> (#[trigger] result@[g]).paths@.len() >= 2,
            forall|g: int| 0 <= g < result@.len() ==> is_cluster_group(all, #[trigger] result@[g]),
            forall|b: int| 0 <= b < sb@.len() ==> #[trigger] sb@[b]@.len() >= 1,
            forall|b: int|
                0 <= b < sb@.len() ==> #[trigger] sb@[b]@ == bucket_of(
                    all,
                    entry_key(sb@[b]@[0], false),
                    false,
                ),
            forall|b1: int, b2: int|
                0 <= b1 < b2 < sb@.len() ==> entry_key(#[trigger] sb@[b1]@[0], false) != entry_key(
                    #[trigger] sb@[b2]@[0],
                    false,
                ),
            forall|s: u64, h: u64|
                (#[trigger] cluster(all, s, h)).len() >= 2 ==> has_cluster_group(
                    result@,
                    all,
                    s,
                    h,
                ) || has_bucket_for(sb@, s, false),
            forall|g: int|
                0 <= g < result@.len() ==> !has_bucket_for(
                    sb@,
                    (#[trigger] result@[g]).size,
                    false,
                ),
            distinct_paths(all) ==> groups_disjoint(result@),
        ensures
            sb@.len() == 0,
            forall|s: u64, h: u64|
                (#[trigger] cluster(all, s, h)).len() >= 2 ==> has_cluster_group(
                    result@,
                    all,
                    s,
                    h,
                ),
        decreases sb@.len(),
    {
        let ghost old_sb = sb@;
        let bucket = match sb.pop() {
            Some(bkt) => bkt,
            None => {
                proof {
                    assert forall|s: u64, h: u64|
                        (#[trigger] cluster(all, s, h)).len() >= 2 implies has_cluster_group(
                        result@,
                        all,
                        s,
                        h,
                    ) by {
                        if !has_cluster_group(result@, all, s, h) {
                            assert(has_bucket_for(sb@, s, false));
                        }
                    }
                }
                break ;
            },
        };
        let ghost bucket_seq = bucket@;
        let ghost s_key = entry_key(bucket_seq[0], false);
        proof {
            assert(bucket_seq == old_sb[old_sb.len() - 1]@);
            assert(bucket_seq == bucket_of(all, s_key, false));
            // Any size still owed a bucket keeps one among the remaining
            // buckets, unless it is exactly the size just popped.
            assert forall|s: u64|
                s != s_key && has_bucket_for(old_sb, s, false) implies has_bucket_for(
                sb@,
                s,
                false,
            ) by {
                let b = choose|b: int|
                    0 <= b < old_sb.len() && entry_key(#[trigger] old_sb[b]@[0], false) == s;
                assert(b < old_sb.len() - 1);
                assert(sb@[b]@[0] == old_sb[b]@[0]);
            }
            assert(entry_key(old_sb[old_sb.len() - 1]@[0], false) == s_key);
            assert(has_bucket_for(old_sb, s_key, false));
            // The popped size has no bucket left: bucket keys are pairwise
            // distinct.
            assert(!has_bucket_for(sb@, s_key, false)) by {
                if has_bucket_for(sb@, s_key, false) {
                    let b = choose|b: int|
                        0 <= b < sb@.len() && entry_key(#[trigger] sb@[b]@[0], false) == s_key;
                    assert(sb@[b]@[0] == old_sb[b]@[0]);
                    assert(entry_key(old_sb[b]@[0], false) == entry_key(
                        old_sb[old_sb.len() - 1]@[0],
                        false,
                    ));
                }
            }
            // No reported group carries the popped size yet.
            assert forall|g: int| 0 <= g < result@.len() implies (#[trigger] result@[g]).size
                != s_key by {
                if result@[g].size == s_key {
                    assert(has_bucket_for(old_sb, result@[g].size, false));
                }
            }
            assert forall|g: int| 0 <= g < result@.len() implies !has_bucket_for(
                sb@,
                (#[trigger] result@[g]).size,
                false,
            ) by {
                if has_bucket_for(sb@, result@[g].size, false) {
                    let b = choose|b: int|
                        0 <= b < sb@.len() && entry_key(#[trigger] sb@[b]@[0], false)
                            == result@[g].size;
                    assert(sb@[b]@[0] == old_sb[b]@[0]);
                    assert(has_bucket_for(old_sb, result@[g].size, false));
                }
            }
        }
        let mut hb = bucket_entries(bucket, true);
        let ghost sb_frozen = sb@;
        proof {
            // Any cluster still owed a group either has its size bucket
            // among the remaining ones, or its size is the one just popped
            // and its digest bucket is in the freshly built second stage.
            assert forall|s: u64, h: u64|
                (#[trigger] cluster(all, s, h)).len() >= 2 implies has_cluster_group(
                result@,
                all,
                s,
                h,
            ) || has_bucket_for(sb@, s, false) || (s == s_key && has_bucket_for(
                hb@,
                h,
                true,
            )) by {
                if !has_cluster_group(result@, all, s, h) && !has_bucket_for(sb@, s, false) {
                    assert(has_bucket_for(old_sb, s, false));
                    assert(s == s_key);
                    broadcast use vstd::seq_lib::group_filter_ensures;

                    let w = cluster(all, s, h)[0];
                    lemma_filter_elems(bucket_seq, |e: HashedEntry| entry_key(e, true) == h);
                    assert(cluster(all, s_key, h) == bucket_of(bucket_seq, h, true));
                    assert(bucket_seq.contains(w));
                    let n = choose|n: int| 0 <= n < bucket_seq.len() && bucket_seq[n] == w;
                    assert(entry_key(w, true) == h);
                    assert(has_bucket_for(hb@, entry_key(bucket_seq[n], true), true));
                }
            }
            // No reported group names the popped size, so none constrains
            // the fresh digest buckets.
            assert forall|g: int, h2: u64|
                #![trigger result@[g].paths@, cluster(all, s_key, h2)]
                0 <= g < result@.len() && result@[g].size == s_key && result@[g].paths@
                    == seq_paths(cluster(all, s_key, h2)) implies !has_bucket_for(
                hb@,
                h2,
                true,
            ) by {
                assert(result@[g].size != s_key);
            }
        }
        loop
            invariant
                sb@ == sb_frozen,
                forall|g: int|
                    0 <= g < result@.len() ==> (#[trigger] result@[g]).paths@.len() >= 2,
                forall|g: int|
                    0 <= g < result@.len() ==> is_cluster_group(all, #[trigger] result@[g]),
                bucket_seq == bucket_of(all, s_key, false),
                forall|c: int| 0 <= c < hb@.len() ==> #[trigger] hb@[c]@.len() >= 1,
                forall|c: int|
                    0 <= c < hb@.len() ==> #[trigger] hb@[c]@ == bucket_of(
                        bucket_seq,
                        entry_key(hb@[c]@[0], true),
                        true,
                    ),
                forall|c1: int, c2: int|
                    0 <= c1 < c2 < hb@.len() ==> entry_key(#[trigger] hb@[c1]@[0], true)
                        != entry_key(#[trigger] hb@[c2]@[0], true),
                forall|s: u64, h: u64|
                    (#[trigger] cluster(all, s, h)).len() >= 2 ==> has_cluster_group(
                        result@,
                        all,
                        s,
                        h,
                    ) || has_bucket_for(sb@, s, false) || (s == s_key && has_bucket_for(
                        hb@,
                        h,
                        true,
                    )),
                forall|g: int|
                    0 <= g < result@.len() ==> !has_bucket_for(
                        sb@,
                        (#[trigger] result@[g]).size,
                        false,
                    ),
                !has_bucket_for(sb@, s_key, false),
                distinct_paths(all) ==> (forall|g: int, h2: u64|
                    #![trigger result@[g].paths@, cluster(all, s_key, h2)]
                    0 <= g < result@.len() && result@[g].size == s_key && result@[g].paths@
                        == seq_paths(cluster(all, s_key, h2)) ==> !has_bucket_for(
                        hb@,
                        h2,
                        true,
                    )),
                distinct_paths(all) ==> groups_disjoint(result@),
            ensures
                sb@ == sb_frozen,
                forall|g: int|
                    0 <= g < result@.len() ==> (#[trigger] result@[g]).paths@.len() >= 2,
                forall|g: int|
                    0 <= g < result@.len() ==> is_cluster_group(all, #[trigger] result@[g]),
                forall|s: u64, h: u64|
                    (#[trigger] cluster(all, s, h)).len() >= 2 ==> has_cluster_group(
                        result@,
                        all,
                        s,
                        h,
                    ) || has_bucket_for(sb@, s, false),
            decreases hb@.len(),
        {
            let ghost old_hb = hb@;
            let hgroup = match hb.pop() {
                Some(hg) => hg,
                None => {
                    break ;
                },
            };
            let ghost hgroup_seq = hgroup@;
            let ghost h_key = entry_key(hgroup_seq[0], true);
            proof {
                assert(hgroup_seq == old_hb[old_hb.len() - 1]@);
                assert(hgroup_seq == bucket_of(bucket_seq, h_key, true));
                assert(hgroup_seq == cluster(all, s_key, h_key));
                assert forall|h: u64|
                    h != h_key && has_bucket_for(old_hb, h, true) implies has_bucket_for(
                    hb@,
                    h,
                    true,
                ) by {
                    let c = choose|c: int|
                        0 <= c < old_hb.len() && entry_key(#[trigger] old_hb[c]@[0], true) == h;
                    assert(c < old_hb.len() - 1);
                    assert(hb@[c]@[0] == old_hb[c]@[0]);
                }
                assert(entry_key(old_hb[old_hb.len() - 1]@[0], true) == h_key);
                assert(has_bucket_for(old_hb, h_key, true));
                // The popped digest has no bucket left: digest keys are
                // pairwise distinct.
                assert(!has_bucket_for(hb@, h_key, true)) by {
                    if has_bucket_for(hb@, h_key, true) {
                        let c = choose|c: int|
                            0 <= c < hb@.len() && entry_key(#[trigger] hb@[c]@[0], true) == h_key;
                        assert(hb@[c]@[0] == old_hb[c]@[0]);
                        assert(entry_key(old_hb[c]@[0], true) == entry_key(
                            old_hb[old_hb.len() - 1]@[0],
                            true,
                        ));
                    }
                }
                if distinct_paths(all) {
                    assert forall|g: int, h2: u64|
                        #![trigger result@[g].paths@, cluster(all, s_key, h2)]
                        0 <= g < result@.len() && result@[g].size == s_key && result@[g].paths@
                            == seq_paths(cluster(all, s_key, h2)) implies !has_bucket_for(
                        hb@,
                        h2,
                        true,
                    ) by {
                        if has_bucket_for(hb@, h2, true) {
                            let c = choose|c: int|
                                0 <= c < hb@.len() && entry_key(#[trigger] hb@[c]@[0], true) == h2;
                            assert(hb@[c]@[0] == old_hb[c]@[0]);
                            assert(has_bucket_for(old_hb, h2, true));
                        }
                    }
                }
            }
            if hgroup.len() >= 2 {
                // The cluster survives: report it as one duplicate group.
                proof {
                    broadcast use vstd::seq_lib::group_filter_ensures;

                    lemma_filter_elems(bucket_seq, |e: HashedEntry| entry_key(e, true) == h_key);
                    assert(bucket_seq.contains(hgroup_seq[0]));
                    let idx = choose|idx: int|
                        0 <= idx < bucket_seq.len() && bucket_seq[idx] == hgroup_seq[0];
                    assert(entry_key(bucket_seq[idx], false) == s_key);
                    assert(hgroup_seq[0].size == s_key);
                }
                let gsize = hgroup[0].size;
                let mut gpaths: Vec<String> = Vec::new();
                let mut j: usize = 0;
                while j < hgroup.len()
                    invariant
                        j <= hgroup_seq.len(),
                        hgroup@ == hgroup_seq,
                        gpaths@ == seq_paths(hgroup_seq.take(j as int)),
                    decreases hgroup_seq.len() - j,
                {
                    gpaths.push(hgroup[j].path.clone());
                    proof {
                        assert(hgroup_seq.take(j + 1) =~= hgroup_seq.take(j as int).push(
                            hgroup_seq[j as int],
                        ));
                        assert(seq_paths(hgroup_seq.take(j + 1)) =~= seq_paths(
                            hgroup_seq.take(j as int),
                        ).push(hgroup_seq[j as int].path));
                    }
                    j = j + 1;
                }
                proof {
                    assert(hgroup_seq.take(hgroup_seq.len() as int) =~= hgroup_seq);
                }
                let ghost old_result = result@;
                result.push(DuplicateGroup { size: gsize, paths: gpaths });
                proof {
                    let ng = result@[result@.len() - 1];
                    assert(ng.size == s_key && ng.paths@ == seq_paths(cluster(all, s_key, h_key)));
                    assert(is_cluster_group(all, ng));
                    assert forall|s: u64, h: u64|
                        (#[trigger] cluster(all, s, h)).len() >= 2 implies has_cluster_group(
                        result@,
                        all,
                        s,
                        h,
                    ) || has_bucket_for(sb@, s, false) || (s == s_key && has_bucket_for(
                        hb@,
                        h,
                        true,
                    )) by {
                        if has_cluster_group(old_result, all, s, h) {
                            let g = choose|g: int|
                                0 <= g < old_result.len() && (#[trigger] old_result[g]).size == s
                                    && old_result[g].paths@ == seq_paths(cluster(all, s, h));
                            assert(result@[g] == old_result[g]);
                        } else if s == s_key && h == h_key {
                            assert(result@[result@.len() - 1].size == s);
                        }
                    }
                    let old_len = old_result.len() as int;
                    assert forall|g: int| 0 <= g < result@.len() implies !has_bucket_for(
                        sb@,
                        (#[trigger] result@[g]).size,
                        false,
                    ) by {
                        if g < old_len {
                            assert(result@[g] == old_result[g]);
                        } else {
                            assert(result@[g].size == s_key);
                        }
                    }
                    if distinct_paths(all) {
                        let c1 = cluster(all, s_key, h_key);
                        // The new group's digest class can only be written
                        // as the one just popped, whose bucket is gone.
                        assert forall|g: int, h2: u64|
                            #![trigger result@[g].paths@, cluster(all, s_key, h2)]
                            0 <= g < result@.len() && result@[g].size == s_key
                                && result@[g].paths@ == seq_paths(
                                cluster(all, s_key, h2),
                            ) implies !has_bucket_for(hb@, h2, true) by {
                            if g < old_len {
                                assert(result@[g] == old_result[g]);
                            } else if h2 != h_key {
                                let c2 = cluster(all, s_key, h2);
                                assert(seq_paths(c1) == seq_paths(c2));
                                assert(c2.len() == c1.len());
                                lemma_clusters_share_no_path(all, s_key, h_key, s_key, h2);
                                assert(seq_paths(c1)[0] == c1[0].path);
                                assert(seq_paths(c2)[0] == c2[0].path);
                                assert(false);
                            }
                        }
                        lemma_cluster_paths_distinct(all, s_key, h_key);
                        assert forall|g1: int, g2: int, p1: int, p2: int|
                            0 <= g1 < g2 < result@.len() && 0 <= p1 < result@[g1].paths@.len()
                                && 0 <= p2 < result@[g2].paths@.len() implies (
                        #[trigger] result@[g1].paths@[p1]) != (
                        #[trigger] result@[g2].paths@[p2]) by {
                            if g2 < old_len {
                                assert(result@[g1] == old_result[g1]);
                                assert(result@[g2] == old_result[g2]);
                            } else {
                                assert(result@[g1] == old_result[g1]);
                                let og = old_result[g1];
                                assert(is_cluster_group(all, og));
                                let h2 = choose|h2: u64|
                                    og.paths@ == seq_paths(#[trigger] cluster(all, og.size, h2));
                                let c2 = cluster(all, og.size, h2);
                                if og.size == s_key {
                                    // That digest bucket was still pending
                                    // when this iteration began.
                                    assert(cluster(all, og.size, h2) == cluster(all, s_key, h2));
                                    assert(!has_bucket_for(old_hb, h2, true));
                                    assert(h2 != h_key);
                                }
                                assert(og.size != s_key || h2 != h_key);
                                lemma_clusters_share_no_path(all, og.size, h2, s_key, h_key);
                                assert(result@[g1].paths@[p1] == c2[p1].path);
                                assert(result@[g2].paths@[p2] == c1[p2].path);
                            }
                        }
                        assert forall|g: int, p1: int, p2: int|
                            0 <= g < result@.len() && 0 <= p1 < p2 < result@[g].paths@.len()
                                implies (#[trigger] result@[g].paths@[p1]) != (
                        #[trigger] result@[g].paths@[p2]) by {
                            if g < old_len {
                                assert(result@[g] == old_result[g]);
                            } else {
                                assert(result@[g].paths@[p1] == c1[p1].path);
                                assert(result@[g].paths@[p2] == c1[p2].path);
                            }
                        }
                        assert(groups_disjoint(result@));
                    }
                }
            } else {
                // A singleton (or empty) cluster: dropped, and no pair of
                // entries can demand it.
                proof {
                    assert(cluster(all, s_key, h_key).len() < 2);
                }
            }
        }
    }
    result
}

/// The files a matcher admits, in input order.
pub open spec fn admitted_files(
    files: Seq<(String, Vec<u8>)>,
    m: Option<Seq<char>>,
    cfg: MatchConfig,
) -> Seq<(String, Vec<u8>)> {
    files.filter(|f: (String, Vec<u8>)| matcher_admits(m, f.0@, cfg))
}

/// The entry a file contributes to the pipeline: its path, its byte size and
/// its digest under the chosen mode.
pub open spec fn mk_entry(f: (String, Vec<u8>), comparison: Comparison) -> HashedEntry {
    HashedEntry { path: f.0, size: f.1@.len() as u64, hash: content_digest(f.1@, comparison) }
}

/// Every entry the pipeline clusters for a list of in-memory files.
pub open spec fn scan_entries(
    files: Seq<(String, Vec<u8>)>,
    m: Option<Seq<char>>,
    cfg: MatchConfig,
    comparison: Comparison,
) -> Seq<HashedEntry> {
    admitted_files(files, m, cfg).map_values(|f: (String, Vec<u8>)| mk_entry(f, comparison))
}

/// Whether some admitted input file carries the path `p` and the byte size
/// `size`.
pub open spec fn path_from_file(
    files: Seq<(String, Vec<u8>)>,
    m: Option<Seq<char>>,
    cfg: MatchConfig,
    p: String,
    size: u64,
) -> bool {
    exists|n: int|
        0 <= n < files.len() && (#[trigger] files[n]).0 == p && files[n].1@.len() as u64 == size
            && matcher_admits(m, files[n].0@, cfg)
}

/// Every reported path is the path of an admitted input file whose byte size
/// is the group's size.
pub open spec fn groups_sound(
    files: Seq<(String, Vec<u8>)>,
    m: Option<Seq<char>>,
    cfg: MatchConfig,
    groups: Seq<DuplicateGroup>,
) -> bool {
    forall|g: int, j: int|
        0 <= g < groups.len() && 0 <= j < groups[g].paths@.len() ==> path_from_file(
            files,
            m,
            cfg,
            #[trigger] groups[g].paths@[j],
            groups[g].size,
        )
}

/// Whether some group of `groups` holds both paths.
pub open spec fn in_same_group(groups: Seq<DuplicateGroup>, p1: String, p2: String) -> bool {
    exists|g: int|
        0 <= g < groups.len() && (#[trigger] groups[g]).paths@.contains(p1)
            && groups[g].paths@.contains(p2)
}

/// Whether no two input files carry the same path: a listing that names
/// each file once, as a directory scan yields.
pub open spec fn distinct_file_paths(files: Seq<(String, Vec<u8>)>) -> bool {
    forall|i: int, j: int|
        0 <= i < j < files.len() ==> (#[trigger] files[i]).0 != (#[trigger] files[j]).0
}

/// A listing that names each file once scans to entries that name each
/// file once.
proof fn lemma_scan_entries_distinct(
    files: Seq<(String, Vec<u8>)>,
    m: Option<Seq<char>>,
    cfg: MatchConfig,
    comparison: Comparison,
)
    requires
        distinct_file_paths(files),
    ensures
        distinct_paths(scan_entries(files, m, cfg, comparison)),
{
    let admitted = admitted_files(files, m, cfg);
    let admit_pred = |f: (String, Vec<u8>)| matcher_admits(m, f.0@, cfg);
    let all = scan_entries(files, m, cfg, comparison);
    assert forall|i: int, j: int| 0 <= i < j < all.len() implies (#[trigger] all[i]).path != (
    #[trigger] all[j]).path by {
        assert(all[i].path == admitted[i].0);
        assert(all[j].path == admitted[j].0);
        lemma_filter_subseq_pair(files, admit_pred, i, j);
        let (n1, n2) = choose|n1: int, n2: int|
            0 <= n1 < n2 < files.len() && #[trigger] files[n1] == admitted[i]
                && #[trigger] files[n2] == admitted[j];
        assert(files[n1].0 != files[n2].0);
    }
}

/// Two admitted files with identical bytes always share a reported group:
/// no false negatives.
pub open spec fn groups_complete(
    files: Seq<(String, Vec<u8>)>,
    m: Option<Seq<char>>,
    cfg: MatchConfig,
    groups: Seq<DuplicateGroup>,
) -> bool {
    forall|a: int, b: int|
        0 <= a < b < files.len() && (#[trigger] files[a]).1@ == (#[trigger] files[b]).1@
            && matcher_admits(m, files[a].0@, cfg) && matcher_admits(m, files[b].0@, cfg)
            ==> in_same_group(groups, files[a].0, files[b].0)
}

/// Runs the whole pipeline on files held in memory: admits the files the
/// matcher accepts, digests each under the chosen mode, clusters by size and
/// digest, and reports every cluster of two or more files — each exactly
/// once, when the listing names each file once.
///
/// Fails exactly when a matcher is given and is malformed, with the `Glob`
/// error.
pub fn run(
    files: Vec<(String, Vec<u8>)>,
    matcher: Option<&str>,
    cfg: MatchConfig,
    comparison: Comparison,
) -> (r: Result<Vec<DuplicateGroup>, AppError>)
    ensures
        r is Ok <==> (matcher matches Some(m) ==> glob_valid(m@)),
        r is Err ==> r matches Err(AppError::Glob { .. }),
        r matches Ok(groups) ==> {
            &&& forall|g: int| 0 <= g < groups@.len() ==> (#[trigger] groups@[g]).paths@.len() >= 2
            &&& forall|g: int|
                0 <= g < groups@.len() ==> is_cluster_group(
                    scan_entries(files@, spec_matcher_text(matcher), cfg, comparison),
                    #[trigger] groups@[g],
                )
            &&& groups_sound(files@, spec_matcher_text(matcher), cfg, groups@)
            &&& groups_complete(files@, spec_matcher_text(matcher), cfg, groups@)
            &&& distinct_file_paths(files@) ==> groups_disjoint(groups@)
        },
{
    let ghost m = spec_matcher_text(matcher);
    match matcher {
        Some(mtext) => {
            match glob_compile_error(mtext) {
                Some(msg) => {
                    return Err(AppError::Glob { message: msg });
                },
                None => {},
            }
        },
        None => {},
    }
    let ghost admit_pred = |f: (String, Vec<u8>)| matcher_admits(m, f.0@, cfg);
    let ghost to_entry = |f: (String, Vec<u8>)| mk_entry(f, comparison);
    let mut entries: Vec<HashedEntry> = Vec::new();
    let mut i: usize = 0;
    while i < files.len()
        invariant
            i <= files@.len(),
            matcher matches Some(mt) ==> glob_valid(mt@),
            m == spec_matcher_text(matcher),
            admit_pred == (|f: (String, Vec<u8>)| matcher_admits(m, f.0@, cfg)),
            to_entry == (|f: (String, Vec<u8>)| mk_entry(f, comparison)),
            entries@ == scan_entries(files@.take(i as int), m, cfg, comparison),
        decreases files@.len() - i,
    {
        let f = &files[i];
        let admitted = path_admitted(matcher, f.0.as_str(), cfg);
        proof {
            assert(files@.take(i + 1) =~= files@.take(i as int).push(files@[i as int]));
            lemma_filter_push(files@.take(i as int), admit_pred, files@[i as int]);
        }
        if admitted {
            let digest: u64 = match comparison {
                Comparison::Strict => strict_hash(&f.1) as u64,
                Comparison::Fuzzy => fuzzy_hash(&f.1),
            };
            let e = HashedEntry { path: f.0.clone(), size: f.1.len() as u64, hash: digest };
            proof {
                assert(e == mk_entry(files@[i as int], comparison));
            }
            entries.push(e);
            proof {
                let before = admitted_files(files@.take(i as int), m, cfg);
                assert(admitted_files(files@.take(i + 1), m, cfg) == before.push(
                    files@[i as int],
                ));
                assert(before.push(files@[i as int]).map_values(to_entry) =~= before.map_values(
                    to_entry,
                ).push(mk_entry(files@[i as int], comparison)));
            }
        } else {
            proof {
                assert(admitted_files(files@.take(i + 1), m, cfg) == admitted_files(
                    files@.take(i as int),
                    m,
                    cfg,
                ));
            }
        }
        i = i + 1;
    }
    proof {
        assert(files@.take(files@.len() as int) =~= files@);
    }
    let ghost all = entries@;
    let groups = find_duplicate_groups(entries);
    proof {
        assert(all == scan_entries(files@, m, cfg, comparison));
        lemma_run_sound(files@, m, cfg, comparison, groups@);
        lemma_run_complete(files@, m, cfg, comparison, groups@);
        if distinct_file_paths(files@) {
            lemma_scan_entries_distinct(files@, m, cfg, comparison);
            assert(groups_disjoint(groups@));
        }
    }
    Ok(groups)
}

/// Soundness of the pipeline's output: every reported path names an admitted
/// file of the group's size.
proof fn lemma_run_sound(
    files: Seq<(String, Vec<u8>)>,
    m: Option<Seq<char>>,
    cfg: MatchConfig,
    comparison: Comparison,
    groups: Seq<DuplicateGroup>,
)
    requires
        forall|g: int|
            0 <= g < groups.len() ==> is_cluster_group(
                scan_entries(files, m, cfg, comparison),
                #[trigger] groups[g],
            ),
    ensures
        groups_sound(files, m, cfg, groups),
{
    let all = scan_entries(files, m, cfg, comparison);
    let admitted = admitted_files(files, m, cfg);
    let admit_pred = |f: (String, Vec<u8>)| matcher_admits(m, f.0@, cfg);
    let to_entry = |f: (String, Vec<u8>)| mk_entry(f, comparison);
    assert forall|g: int, j: int|
        0 <= g < groups.len() && 0 <= j < groups[g].paths@.len() implies path_from_file(
        files,
        m,
        cfg,
        #[trigger] groups[g].paths@[j],
        groups[g].size,
    ) by {
        let h = choose|h: u64|
            groups[g].paths@ == seq_paths(#[trigger] cluster(all, groups[g].size, h));
        let cl = cluster(all, groups[g].size, h);
        let e = cl[j];
        assert(groups[g].paths@[j] == e.path);
        let stage1 = bucket_of(all, groups[g].size, false);
        lemma_filter_elems(stage1, |e2: HashedEntry| entry_key(e2, true) == h);
        assert(stage1.contains(e));
        lemma_filter_elems(all, |e2: HashedEntry| entry_key(e2, false) == groups[g].size);
        assert(all.contains(e));
        let ne = choose|ne: int| 0 <= ne < all.len() && all[ne] == e;
        assert(all[ne] == admitted.map_values(to_entry)[ne]);
        assert(e == mk_entry(admitted[ne], comparison));
        lemma_filter_elems(files, admit_pred);
        assert(admitted == files.filter(admit_pred));
        assert(files.contains(admitted[ne]));
        let n = choose|n: int| 0 <= n < files.len() && files[n] == admitted[ne];
        broadcast use vstd::seq_lib::group_filter_ensures;

        assert(admit_pred(admitted[ne]));
        assert(entry_key(e, false) == groups[g].size);
        assert(files[n].0 == e.path);
        assert(files[n].1@.len() as u64 == groups[g].size);
        assert(matcher_admits(m, files[n].0@, cfg));
        assert(path_from_file(files, m, cfg, groups[g].paths@[j], groups[g].size));
    }
}

/// Completeness of the pipeline's output: two admitted files with identical
/// bytes share a group.
proof fn lemma_run_complete(
    files: Seq<(String, Vec<u8>)>,
    m: Option<Seq<char>>,
    cfg: MatchConfig,
    comparison: Comparison,
    groups: Seq<DuplicateGroup>,
)
    requires
        forall|s: u64, h: u64|
            (#[trigger] cluster(scan_entries(files, m, cfg, comparison), s, h)).len() >= 2
                ==> has_cluster_group(groups, scan_entries(files, m, cfg, comparison), s, h),
    ensures
        groups_complete(files, m, cfg, groups),
{
    let all = scan_entries(files, m, cfg, comparison);
    let admitted = admitted_files(files, m, cfg);
    let admit_pred = |f: (String, Vec<u8>)| matcher_admits(m, f.0@, cfg);
    let to_entry = |f: (String, Vec<u8>)| mk_entry(f, comparison);
    assert forall|a: int, b: int|
        0 <= a < b < files.len() && (#[trigger] files[a]).1@ == (#[trigger] files[b]).1@
            && matcher_admits(m, files[a].0@, cfg) && matcher_admits(m, files[b].0@, cfg)
            implies in_same_group(groups, files[a].0, files[b].0) by {
        assert(admit_pred(files[a]) && admit_pred(files[b]));
        lemma_filter_pair(files, admit_pred, a, b);
        let (a2, b2) = choose|a2: int, b2: int|
            0 <= a2 < b2 < admitted.len() && #[trigger] admitted[a2] == files[a]
                && #[trigger] admitted[b2] == files[b];
        assert(all[a2] == mk_entry(files[a], comparison));
        assert(all[b2] == mk_entry(files[b], comparison));
        assert(all[a2].size == all[b2].size);
        assert(all[a2].hash == all[b2].hash);
        lemma_cluster_two(all, a2, b2);
        let s = all[a2].size;
        let h = all[a2].hash as u64;
        assert(has_cluster_group(groups, all, s, h));
        let g = choose|g: int|
            0 <= g < groups.len() && (#[trigger] groups[g]).size == s && groups[g].paths@
                == seq_paths(cluster(all, s, h));
        let cl = cluster(all, s, h);
        let na = choose|na: int| 0 <= na < cl.len() && cl[na] == all[a2];
        let nb = choose|nb: int| 0 <= nb < cl.len() && cl[nb] == all[b2];
        assert(groups[g].paths@[na] == files[a].0);
        assert(groups[g].paths@[nb] == files[b].0);
        assert(groups[g].paths@.contains(files[a].0));
        assert(groups[g].paths@.contains(files[b].0));
        assert(in_same_group(groups, files[a].0, files[b].0));
    }
}

} // verus!

//! Bucketing of entries by a 64-bit key.
//!
//! The two clustering stages of the pipeline are the same operation: fold a
//! list of entries into buckets, one bucket per distinct key, each bucket
//! holding exactly the entries that carry its key, in input order. The first
//! stage keys on the byte size, the second on the content digest.

use std::collections::HashMap;
use vstd::prelude::*;
use vstd::std_specs::vec::vec_index_mut;

verus! {

broadcast use vstd::std_specs::hash::group_hash_axioms;

/// One enumerated file, sized and digested: what the clustering stages work
/// on.
pub struct HashedEntry {
    pub path: String,
    pub size: u64,
    pub hash: u64,
}

/// The key a clustering stage groups by: the content digest for the second
/// stage, the byte size for the first.
pub open spec fn entry_key(e: HashedEntry, by_hash: bool) -> u64 {
    if by_hash {
        e.hash
    } else {
        e.size
    }
}

/// All entries of `s` that carry the key `k`, in order.
pub open spec fn bucket_of(s: Seq<HashedEntry>, k: u64, by_hash: bool) -> Seq<HashedEntry> {
    s.filter(|e: HashedEntry| entry_key(e, by_hash) == k)
}

/// Whether some bucket of `bs` holds entries of key `k`.
pub open spec fn has_bucket_for(bs: Seq<Vec<HashedEntry>>, k: u64, by_hash: bool) -> bool {
    exists|b: int| 0 <= b < bs.len() && entry_key(#[trigger] bs[b]@[0], by_hash) == k
}

/// An exact copy of an entry.
fn clone_entry(e: &HashedEntry) -> (r: HashedEntry)
    ensures
        r == *e,
{
    HashedEntry { path: e.path.clone(), size: e.size, hash: e.hash }
}

/// Appending one element to a sequence extends its filtered form by that
/// element exactly when the element satisfies the predicate.
pub proof fn lemma_filter_push<A>(s: Seq<A>, pred: spec_fn(A) -> bool, x: A)
    ensures
        s.push(x).filter(pred) == (if pred(x) {
            s.filter(pred).push(x)
        } else {
            s.filter(pred)
        }),
{
    reveal(Seq::filter);
    assert(s.push(x).drop_last() =~= s);
    assert(s.push(x).last() == x);
}

/// Every element of a filtered sequence comes from the original sequence.
pub proof fn lemma_filter_elems<A>(s: Seq<A>, pred: spec_fn(A) -> bool)
    ensures
        forall|i: int|
            0 <= i < s.filter(pred).len() ==> s.contains(#[trigger] s.filter(pred)[i]),
    decreases s.len(),
{
    reveal(Seq::filter);
    if s.len() > 0 {
        lemma_filter_elems(s.drop_last(), pred);
        assert forall|i: int| 0 <= i < s.filter(pred).len() implies s.contains(
            #[trigger] s.filter(pred)[i],
        ) by {
            let x = s.filter(pred)[i];
            if i < s.drop_last().filter(pred).len() {
                assert(s.drop_last().contains(x));
                let n = choose|n: int| 0 <= n < s.drop_last().len() && s.drop_last()[n] == x;
                assert(s[n] == x);
            } else {
                assert(x == s.last());
                assert(s[s.len() - 1] == x);
            }
        }
    }
}

/// Filtering a longer prefix never yields fewer elements.
proof fn lemma_filter_take_mono<A>(s: Seq<A>, pred: spec_fn(A) -> bool, n: int, m: int)
    requires
        0 <= n <= m <= s.len(),
    ensures
        s.take(n).filter(pred).len() <= s.take(m).filter(pred).len(),
    decreases m - n,
{
    if n < m {
        lemma_filter_take_mono(s, pred, n, m - 1);
        assert(s.take(m - 1).push(s[m - 1]) =~= s.take(m));
        lemma_filter_push(s.take(m - 1), pred, s[m - 1]);
    }
}

/// A sequence with two positions satisfying the predicate filters to at
/// least two elements, whether or not the two elements are equal.
pub proof fn lemma_filter_two<A>(s: Seq<A>, pred: spec_fn(A) -> bool, i: int, j: int)
    requires
        0 <= i < j < s.len(),
        pred(s[i]),
        pred(s[j]),
    ensures
        s.filter(pred).len() >= 2,
{
    assert(s.take(i).push(s[i]) =~= s.take(i + 1));
    lemma_filter_push(s.take(i), pred, s[i]);
    lemma_filter_take_mono(s, pred, i + 1, j);
    assert(s.take(j).push(s[j]) =~= s.take(j + 1));
    lemma_filter_push(s.take(j), pred, s[j]);
    lemma_filter_take_mono(s, pred, j + 1, s.len() as int);
    assert(s.take(s.len() as int) =~= s);
}

/// A filtered prefix is a prefix of the filtered whole.
proof fn lemma_filter_take_is_prefix<A>(s: Seq<A>, pred: spec_fn(A) -> bool, n: int)
    requires
        0 <= n <= s.len(),
    ensures
        s.take(n).filter(pred) == s.filter(pred).take(s.take(n).filter(pred).len() as int),
    decreases s.len() - n,
{
    if n == s.len() {
        assert(s.take(n) =~= s);
        assert(s.filter(pred).take(s.filter(pred).len() as int) =~= s.filter(pred));
    } else {
        lemma_filter_take_is_prefix(s, pred, n + 1);
        assert(s.take(n + 1) =~= s.take(n).push(s[n]));
        lemma_filter_push(s.take(n), pred, s[n]);
        let all = s.filter(pred);
        let fn1 = s.take(n).filter(pred);
        let fn2 = s.take(n + 1).filter(pred);
        assert(fn2 == all.take(fn2.len() as int));
        lemma_filter_take_mono(s, pred, n + 1, s.len() as int);
        assert(s.take(s.len() as int) =~= s);
        assert(fn2.len() <= all.len());
        assert(fn1.len() <= fn2.len());
        assert forall|m: int| 0 <= m < fn1.len() implies fn1[m] == all[m] by {
            assert(fn1[m] == fn2[m]);
            assert(fn2[m] == all.take(fn2.len() as int)[m]);
        }
        assert(fn1 =~= all.take(fn1.len() as int));
    }
}

/// Two positions of the input that satisfy the predicate survive filtering
/// as two positions in the same order, with the same values.
pub proof fn lemma_filter_pair<A>(s: Seq<A>, pred: spec_fn(A) -> bool, i: int, j: int)
    ensures
        ({
            0 <= i < j < s.len() && pred(s[i]) && pred(s[j]) ==> exists|i2: int, j2: int|
                0 <= i2 < j2 < s.filter(pred).len() && #[trigger] s.filter(pred)[i2] == s[i]
                    && #[trigger] s.filter(pred)[j2] == s[j]
        }),
{
    if 0 <= i < j < s.len() && pred(s[i]) && pred(s[j]) {
        let all = s.filter(pred);
        assert(s.take(i + 1) =~= s.take(i).push(s[i]));
        lemma_filter_push(s.take(i), pred, s[i]);
        assert(s.take(j + 1) =~= s.take(j).push(s[j]));
        lemma_filter_push(s.take(j), pred, s[j]);
        lemma_filter_take_is_prefix(s, pred, i + 1);
        lemma_filter_take_is_prefix(s, pred, j + 1);
        lemma_filter_take_mono(s, pred, i + 1, j);
        lemma_filter_take_mono(s, pred, j + 1, s.len() as int);
        assert(s.take(s.len() as int) =~= s);
        let leni = s.take(i + 1).filter(pred).len() as int;
        let lenj = s.take(j + 1).filter(pred).len() as int;
        let i2 = leni - 1;
        let j2 = lenj - 1;
        assert(lenj <= all.len());
        assert(leni < lenj);
        assert(s.take(i + 1).filter(pred)[i2] == s[i]);
        assert(s.take(i + 1).filter(pred) == all.take(leni));
        assert(all.take(leni)[i2] == all[i2]);
        assert(all[i2] == s[i]);
        assert(s.take(j + 1).filter(pred)[j2] == s[j]);
        assert(s.take(j + 1).filter(pred) == all.take(lenj));
        assert(all.take(lenj)[j2] == all[j2]);
        assert(all[j2] == s[j]);
        assert(0 <= i2 < j2 < all.len());
    }
}

/// Two positions of a filtered sequence come from two positions of the
/// input, in the same order, with the same values.
pub proof fn lemma_filter_subseq_pair<A>(s: Seq<A>, pred: spec_fn(A) -> bool, i: int, j: int)
    requires
        0 <= i < j < s.filter(pred).len(),
    ensures
        exists|n1: int, n2: int|
            0 <= n1 < n2 < s.len() && #[trigger] s[n1] == s.filter(pred)[i] && #[trigger] s[n2]
                == s.filter(pred)[j],
    decreases s.len(),
{
    reveal(Seq::filter);
    let f = s.filter(pred);
    let d = s.drop_last();
    let fd = d.filter(pred);
    if pred(s.last()) {
        assert(f == fd.push(s.last()));
        if j < fd.len() {
            lemma_filter_subseq_pair(d, pred, i, j);
            let (n1, n2) = choose|n1: int, n2: int|
                0 <= n1 < n2 < d.len() && #[trigger] d[n1] == fd[i] && #[trigger] d[n2] == fd[j];
            assert(s[n1] == f[i] && s[n2] == f[j]);
        } else {
            assert(j == fd.len() && f[j] == s.last());
            lemma_filter_elems(d, pred);
            assert(d.contains(fd[i]));
            let n1 = choose|n1: int| 0 <= n1 < d.len() && d[n1] == fd[i];
            let n2 = s.len() - 1;
            assert(s[n1] == f[i] && s[n2] == f[j]);
        }
    } else {
        assert(f == fd);
        lemma_filter_subseq_pair(d, pred, i, j);
        let (n1, n2) = choose|n1: int, n2: int|
            0 <= n1 < n2 < d.len() && #[trigger] d[n1] == fd[i] && #[trigger] d[n2] == fd[j];
        assert(s[n1] == f[i] && s[n2] == f[j]);
    }
}

/// Whether no two entries carry the same path: a listing that names each
/// file once.
pub open spec fn distinct_paths(entries: Seq<HashedEntry>) -> bool {
    forall|i: int, j: int|
        0 <= i < j < entries.len() ==> (#[trigger] entries[i]).path != (#[trigger] entries[j]).path
}

/// The entries of size bucket `s` and digest bucket `h`: what one duplicate
/// group collects, before singleton clusters are dropped.
pub open spec fn cluster(entries: Seq<HashedEntry>, s: u64, h: u64) -> Seq<HashedEntry> {
    bucket_of(bucket_of(entries, s, false), h, true)
}

/// Two entries of equal size and equal digest always share a cluster of at
/// least two entries: the heart of the no-false-negatives property.
pub proof fn lemma_cluster_two(entries: Seq<HashedEntry>, a: int, b: int)
    requires
        0 <= a < b < entries.len(),
        entries[a].size == entries[b].size,
        entries[a].hash == entries[b].hash,
    ensures
        ({
            let s = entries[a].size;
            let h = entries[a].hash;
            &&& cluster(entries, s, h).len() >= 2
            &&& cluster(entries, s, h).contains(entries[a])
            &&& cluster(entries, s, h).contains(entries[b])
        }),
{
    broadcast use vstd::seq_lib::group_filter_ensures;

    let s = entries[a].size;
    let h = entries[a].hash;
    let p1 = |e: HashedEntry| entry_key(e, false) == s;
    let p2 = |e: HashedEntry| entry_key(e, true) == h;
    let stage1 = bucket_of(entries, s, false);
    assert(stage1 == entries.filter(p1));
    lemma_filter_pair(entries, p1, a, b);
    let (a2, b2) = choose|a2: int, b2: int|
        0 <= a2 < b2 < stage1.len() && #[trigger] stage1[a2] == entries[a] && #[trigger] stage1[b2]
            == entries[b];
    assert(cluster(entries, s, h) == stage1.filter(p2));
    lemma_filter_two(stage1, p2, a2, b2);
    assert(stage1.filter(p2).contains(stage1[a2]));
    assert(stage1.filter(p2).contains(stage1[b2]));
}

/// Folds the entries into one bucket per distinct key.
///
/// Each bucket holds exactly the entries of its key, in input order; no two
/// buckets share a key; every entry's key has a bucket. The order of the
/// buckets themselves is unspecified.
pub fn bucket_entries(entries: Vec<HashedEntry>, by_hash: bool) -> (r: Vec<Vec<HashedEntry>>)
    ensures
        forall|b: int| 0 <= b < r@.len() ==> #[trigger] r@[b]@.len() >= 1,
        forall|b: int|
            0 <= b < r@.len() ==> #[trigger] r@[b]@ == bucket_of(
                entries@,
                entry_key(r@[b]@[0], by_hash),
                by_hash,
            ),
        forall|b1: int, b2: int|
            0 <= b1 < b2 < r@.len() ==> entry_key(#[trigger] r@[b1]@[0], by_hash) != entry_key(
                #[trigger] r@[b2]@[0],
                by_hash,
            ),
        forall|n: int|
            0 <= n < entries@.len() ==> has_bucket_for(
                r@,
                entry_key(#[trigger] entries@[n], by_hash),
                by_hash,
            ),
{
    let ghost all = entries@;
    let mut buckets: Vec<Vec<HashedEntry>> = Vec::new();
    let mut idx: HashMap<u64, usize> = HashMap::new();
    let mut i: usize = 0;
    while i < entries.len()
        invariant
            all == entries@,
            i <= all.len(),
            forall|b: int| 0 <= b < buckets@.len() ==> #[trigger] buckets@[b]@.len() >= 1,
            forall|b: int|
                0 <= b < buckets@.len() ==> #[trigger] buckets@[b]@ == bucket_of(
                    all.take(i as int),
                    entry_key(buckets@[b]@[0], by_hash),
                    by_hash,
                ),
            forall|k: u64|
                idx@.contains_key(k) ==> #[trigger] idx@[k] < buckets@.len() && entry_key(
                    buckets@[idx@[k] as int]@[0],
                    by_hash,
                ) == k,
            forall|b: int|
                0 <= b < buckets@.len() ==> idx@.contains_key(
                    entry_key(#[trigger] buckets@[b]@[0], by_hash),
                ) && idx@[entry_key(buckets@[b]@[0], by_hash)] == b,
            forall|n: int|
                0 <= n < i ==> idx@.contains_key(entry_key(#[trigger] all[n], by_hash)),
        decreases all.len() - i,
    {
        let e = clone_entry(&entries[i]);
        let k: u64 = if by_hash {
            e.hash
        } else {
            e.size
        };
        assert(k == entry_key(all[i as int], by_hash));
        proof {
            assert(all.take(i + 1) =~= all.take(i as int).push(all[i as int]));
        }
        match idx.get(&k) {
            Some(bref) => {
                let b: usize = *bref;
                let ghost old_buckets = buckets@;
                let inner = vec_index_mut(&mut buckets, b);
                inner.push(e);
                proof {
                    assert(buckets@.len() == old_buckets.len());
                    assert(buckets@[b as int]@ == old_buckets[b as int]@.push(all[i as int]));
                    assert(forall|b2: int|
                        0 <= b2 < buckets@.len() && b2 != b ==> buckets@[b2] == old_buckets[b2]);
                    assert forall|b2: int| 0 <= b2 < buckets@.len() implies #[trigger] buckets@[b2]@
                        == bucket_of(
                        all.take(i + 1),
                        entry_key(buckets@[b2]@[0], by_hash),
                        by_hash,
                    ) by {
                        let k2 = entry_key(old_buckets[b2]@[0], by_hash);
                        lemma_filter_push(
                            all.take(i as int),
                            |e2: HashedEntry| entry_key(e2, by_hash) == k2,
                            all[i as int],
                        );
                        if b2 == b {
                            assert(buckets@[b2]@ == old_buckets[b2]@.push(all[i as int]));
                            assert(k2 == k);
                        } else {
                            assert(buckets@[b2]@ == old_buckets[b2]@);
                            assert(k2 != k) by {
                                assert(entry_key(buckets@[b as int]@[0], by_hash) == k);
                            }
                        }
                    }
                }
            },
            None => {
                let ghost old_buckets = buckets@;
                let pos: usize = buckets.len();
                idx.insert(k, pos);
                let mut fresh: Vec<HashedEntry> = Vec::new();
                fresh.push(e);
                buckets.push(fresh);
                proof {
                    assert forall|b2: int| 0 <= b2 < buckets@.len() implies #[trigger] buckets@[b2]@
                        == bucket_of(
                        all.take(i + 1),
                        entry_key(buckets@[b2]@[0], by_hash),
                        by_hash,
                    ) by {
                        let k2 = entry_key(buckets@[b2]@[0], by_hash);
                        lemma_filter_push(
                            all.take(i as int),
                            |e2: HashedEntry| entry_key(e2, by_hash) == k2,
                            all[i as int],
                        );
                        if b2 == pos {
                            assert(k2 == k);
                            assert(bucket_of(all.take(i as int), k, by_hash) =~= Seq::<
                                HashedEntry,
                            >::empty()) by {
                                if bucket_of(all.take(i as int), k, by_hash).len() > 0 {
                                    broadcast use vstd::seq_lib::group_filter_ensures;

                                    let w = bucket_of(all.take(i as int), k, by_hash)[0];
                                    assert(entry_key(w, by_hash) == k);
                                    lemma_filter_elems(
                                        all.take(i as int),
                                        |e2: HashedEntry| entry_key(e2, by_hash) == k,
                                    );
                                    assert(all.take(i as int).contains(w));
                                    let n = choose|n: int|
                                        0 <= n < i && all.take(i as int)[n] == w;
                                    assert(all[n] == w);
                                    assert(idx@.contains_key(entry_key(all[n], by_hash)));
                                }
                            }
                            assert(buckets@[b2]@ =~= Seq::<HashedEntry>::empty().push(
                                all[i as int],
                            ));
                        } else {
                            assert(buckets@[b2]@ == old_buckets[b2]@);
                            assert(k2 != k) by {
                                if k2 == k {
                                    assert(idx@.contains_key(k2));
                                }
                            }
                        }
                    }
                }
            },
        }
        i = i + 1;
    }
    proof {
        assert(all.take(all.len() as int) =~= all);
        assert forall|n: int| 0 <= n < entries@.len() implies has_bucket_for(
            buckets@,
            entry_key(#[trigger] entries@[n], by_hash),
            by_hash,
        ) by {
            let k = entry_key(entries@[n], by_hash);
            assert(all[n] == entries@[n]);
            assert(idx@.contains_key(k));
            let b = idx@[k] as int;
            assert(0 <= b < buckets@.len() && entry_key(buckets@[b]@[0], by_hash) == k);
        }
    }
    buckets
}


/// Each position of a cluster is some entry, carrying the cluster's size
/// and digest.
pub proof fn lemma_cluster_entry_source(entries: Seq<HashedEntry>, s: u64, h: u64, p: int)
    requires
        0 <= p < cluster(entries, s, h).len(),
    ensures
        exists|n: int|
            0 <= n < entries.len() && #[trigger] entries[n] == cluster(entries, s, h)[p],
        cluster(entries, s, h)[p].size == s,
        cluster(entries, s, h)[p].hash == h,
{
    broadcast use vstd::seq_lib::group_filter_ensures;

    let stage1 = bucket_of(entries, s, false);
    let cl = cluster(entries, s, h);
    assert(entry_key(cl[p], true) == h);
    lemma_filter_elems(stage1, |e: HashedEntry| entry_key(e, true) == h);
    assert(stage1.contains(cl[p]));
    let q = choose|q: int| 0 <= q < stage1.len() && stage1[q] == cl[p];
    assert(entry_key(stage1[q], false) == s);
    lemma_filter_elems(entries, |e: HashedEntry| entry_key(e, false) == s);
    assert(entries.contains(stage1[q]));
    let n = choose|n: int| 0 <= n < entries.len() && entries[n] == stage1[q];
    assert(entries[n] == cl[p]);
}

/// Two positions of a cluster come from two distinct entries.
pub proof fn lemma_cluster_pair_source(entries: Seq<HashedEntry>, s: u64, h: u64, p1: int, p2: int)
    requires
        0 <= p1 < p2 < cluster(entries, s, h).len(),
    ensures
        exists|n1: int, n2: int|
            0 <= n1 < n2 < entries.len() && #[trigger] entries[n1] == cluster(entries, s, h)[p1]
                && #[trigger] entries[n2] == cluster(entries, s, h)[p2],
{
    let stage1 = bucket_of(entries, s, false);
    let cl = cluster(entries, s, h);
    lemma_filter_subseq_pair(stage1, |e: HashedEntry| entry_key(e, true) == h, p1, p2);
    let (q1, q2) = choose|q1: int, q2: int|
        0 <= q1 < q2 < stage1.len() && #[trigger] stage1[q1] == cl[p1] && #[trigger] stage1[q2]
            == cl[p2];
    lemma_filter_subseq_pair(entries, |e: HashedEntry| entry_key(e, false) == s, q1, q2);
    let (n1, n2) = choose|n1: int, n2: int|
        0 <= n1 < n2 < entries.len() && #[trigger] entries[n1] == stage1[q1]
            && #[trigger] entries[n2] == stage1[q2];
    assert(entries[n1] == cl[p1] && entries[n2] == cl[p2]);
}

/// In a listing that names each file once, the paths within one cluster
/// are pairwise distinct.
pub proof fn lemma_cluster_paths_distinct(entries: Seq<HashedEntry>, s: u64, h: u64)
    requires
        distinct_paths(entries),
    ensures
        forall|p1: int, p2: int|
            0 <= p1 < p2 < cluster(entries, s, h).len() ==> (#[trigger] cluster(
                entries,
                s,
                h,
            )[p1]).path != (#[trigger] cluster(entries, s, h)[p2]).path,
{
    let cl = cluster(entries, s, h);
    assert forall|p1: int, p2: int| 0 <= p1 < p2 < cl.len() implies (#[trigger] cl[p1]).path != (
    #[trigger] cl[p2]).path by {
        lemma_cluster_pair_source(entries, s, h, p1, p2);
        let (n1, n2) = choose|n1: int, n2: int|
            0 <= n1 < n2 < entries.len() && #[trigger] entries[n1] == cl[p1]
                && #[trigger] entries[n2] == cl[p2];
        assert(entries[n1].path != entries[n2].path);
    }
}

/// In a listing that names each file once, two different clusters share no
/// path: each entry lies in exactly one size and digest class.
pub proof fn lemma_clusters_share_no_path(
    entries: Seq<HashedEntry>,
    s1: u64,
    h1: u64,
    s2: u64,
    h2: u64,
)
    requires
        distinct_paths(entries),
        s1 != s2 || h1 != h2,
    ensures
        forall|p1: int, p2: int|
            0 <= p1 < cluster(entries, s1, h1).len() && 0 <= p2 < cluster(entries, s2, h2).len()
                ==> (#[trigger] cluster(entries, s1, h1)[p1]).path != (#[trigger] cluster(
                entries,
                s2,
                h2,
            )[p2]).path,
{
    let c1 = cluster(entries, s1, h1);
    let c2 = cluster(entries, s2, h2);
    assert forall|p1: int, p2: int|
        0 <= p1 < c1.len() && 0 <= p2 < c2.len() implies (#[trigger] c1[p1]).path != (
    #[trigger] c2[p2]).path by {
        lemma_cluster_entry_source(entries, s1, h1, p1);
        lemma_cluster_entry_source(entries, s2, h2, p2);
        let n1 = choose|n1: int| 0 <= n1 < entries.len() && #[trigger] entries[n1] == c1[p1];
        let n2 = choose|n2: int| 0 <= n2 < entries.len() && #[trigger] entries[n2] == c2[p2];
        if c1[p1].path == c2[p2].path {
            if n1 != n2 {
                assert(entries[n1].path != entries[n2].path);
            } else {
                assert(c1[p1].size == c2[p2].size && c1[p1].hash == c2[p2].hash);
            }
        }
    }
}

} // verus!

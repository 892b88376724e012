//! What a whole run reports: the groups of stage two, taken over all the
//! buckets of stage one.

use crate::algorithm::{
    content_groups, duplicate_groups, group_key, lemma_group_members, lemma_groups_disjoint,
    lemma_pair_grouped_once, select, signatures_of, signed_paths, GroupView, SignedFile,
};
use vstd::prelude::*;

verus! {

/// The keys at the positions of a group, in the group's order.
pub open spec fn picked(keys: Seq<u64>, group: Seq<int>) -> Seq<u64> {
    group.map_values(|i: int| keys[i])
}

/// Positions within a bucket, turned into the positions that the bucket
/// holds there.
pub open spec fn lifted(bucket: Seq<int>, inner: Seq<int>) -> Seq<int> {
    inner.map_values(|n: int| bucket[n])
}

/// The groups that stage two makes of one bucket, as positions among all
/// files of the run.
pub open spec fn bucket_groups(signatures: Seq<u64>, bucket: Seq<int>) -> Seq<Seq<int>> {
    duplicate_groups(picked(signatures, bucket)).map_values(|h: Seq<int>| lifted(bucket, h))
}

/// The groups that stage two makes of a run of buckets, bucket by bucket.
pub open spec fn groups_of_buckets(signatures: Seq<u64>, buckets: Seq<Seq<int>>) -> Seq<Seq<int>>
    decreases buckets.len(),
{
    if buckets.len() == 0 {
        Seq::empty()
    } else {
        groups_of_buckets(signatures, buckets.drop_last()) + bucket_groups(
            signatures,
            buckets.last(),
        )
    }
}

/// The groups that a run reports for files with the given sizes and
/// signatures, each group as the positions of its files.  The files are
/// those that could be read; a file that could not is in no group and leaves
/// the groups of the others as they are.
pub open spec fn run_groups(sizes: Seq<u64>, signatures: Seq<u64>) -> Seq<Seq<int>> {
    groups_of_buckets(signatures, duplicate_groups(sizes))
}

/// A bucket of stage one: positions among `count` files, ascending.
pub open spec fn is_bucket(bucket: Seq<int>, count: int) -> bool {
    &&& forall|n: int| 0 <= n < bucket.len() ==> 0 <= #[trigger] bucket[n] < count
    &&& forall|n: int, m: int|
        0 <= n < m < bucket.len() ==> #[trigger] bucket[n] < #[trigger] bucket[m]
}

proof fn lemma_bucket_group(signatures: Seq<u64>, bucket: Seq<int>, h: int)
    requires
        is_bucket(bucket, signatures.len() as int),
        0 <= h < bucket_groups(signatures, bucket).len(),
    ensures
        ({
            let inner = duplicate_groups(picked(signatures, bucket))[h];
            let group = bucket_groups(signatures, bucket)[h];
            &&& group == lifted(bucket, inner)
            &&& group.len() == inner.len()
            &&& group.len() >= 2
            &&& forall|n: int| 0 <= n < inner.len() ==> 0 <= #[trigger] inner[n] < bucket.len()
            &&& forall|n: int|
                0 <= n < group.len() ==> bucket.contains(#[trigger] group[n])
                    && signatures[group[n]] == signatures[group[0]]
            &&& forall|a: int|
                0 <= a < bucket.len() ==> (group.contains(bucket[a]) <==> inner.contains(a))
        }),
{
    let keys = picked(signatures, bucket);
    let inner = duplicate_groups(keys)[h];
    let group = bucket_groups(signatures, bucket)[h];
    lemma_group_members(keys, h);
    assert forall|n: int| 0 <= n < group.len() implies bucket.contains(#[trigger] group[n])
        && signatures[group[n]] == signatures[group[0]] by {
        assert(group[n] == bucket[inner[n]]);
        assert(group[0] == bucket[inner[0]]);
        assert(keys[inner[n]] == group_key(keys, inner));
        assert(keys[inner[0]] == group_key(keys, inner));
    }
    assert forall|a: int| 0 <= a < bucket.len() implies (group.contains(bucket[a])
        <==> inner.contains(a)) by {
        if group.contains(bucket[a]) {
            let n = choose|n: int| 0 <= n < group.len() && group[n] == bucket[a];
            assert(group[n] == bucket[inner[n]]);
            assert(inner[n] == a) by {
                if inner[n] < a {
                    assert(bucket[inner[n]] < bucket[a]);
                } else if a < inner[n] {
                    assert(bucket[a] < bucket[inner[n]]);
                }
            }
        }
        if inner.contains(a) {
            let n = choose|n: int| 0 <= n < inner.len() && inner[n] == a;
            assert(group[n] == bucket[a]);
        }
    }
}

proof fn lemma_origin(signatures: Seq<u64>, buckets: Seq<Seq<int>>, k: int)
    requires
        0 <= k < groups_of_buckets(signatures, buckets).len(),
    ensures
        exists|g: int, h: int|
            0 <= g < buckets.len() && 0 <= h < bucket_groups(signatures, buckets[g]).len()
                && groups_of_buckets(signatures, buckets)[k] == #[trigger] bucket_groups(
                signatures,
                buckets[g],
            )[h],
    decreases buckets.len(),
{
    let front = groups_of_buckets(signatures, buckets.drop_last());
    if k < front.len() {
        lemma_origin(signatures, buckets.drop_last(), k);
        let (g, h) = choose|g: int, h: int|
            0 <= g < buckets.drop_last().len() && 0 <= h < bucket_groups(
                signatures,
                buckets.drop_last()[g],
            ).len() && front[k] == #[trigger] bucket_groups(signatures, buckets.drop_last()[g])[h];
        assert(buckets.drop_last()[g] == buckets[g]);
        assert(groups_of_buckets(signatures, buckets)[k] == bucket_groups(
            signatures,
            buckets[g],
        )[h]);
    } else {
        let g = buckets.len() - 1;
        let h = k - front.len();
        assert(groups_of_buckets(signatures, buckets)[k] == bucket_groups(
            signatures,
            buckets[g],
        )[h]);
    }
}

proof fn lemma_placed(signatures: Seq<u64>, buckets: Seq<Seq<int>>, g: int, h: int)
    requires
        0 <= g < buckets.len(),
        0 <= h < bucket_groups(signatures, buckets[g]).len(),
    ensures
        exists|k: int|
            0 <= k < groups_of_buckets(signatures, buckets).len() && #[trigger] groups_of_buckets(
                signatures,
                buckets,
            )[k] == bucket_groups(signatures, buckets[g])[h],
    decreases buckets.len(),
{
    let front = groups_of_buckets(signatures, buckets.drop_last());
    let all = groups_of_buckets(signatures, buckets);
    if g < buckets.len() - 1 {
        assert(buckets.drop_last()[g] == buckets[g]);
        lemma_placed(signatures, buckets.drop_last(), g, h);
        let k = choose|k: int|
            0 <= k < front.len() && #[trigger] front[k] == bucket_groups(signatures, buckets[g])[h];
        assert(all[k] == front[k]);
    } else {
        assert(all[front.len() + h] == bucket_groups(signatures, buckets[g])[h]);
    }
}

/// Buckets that share no position.
pub open spec fn disjoint_buckets(buckets: Seq<Seq<int>>) -> bool {
    forall|g: int, h: int, i: int|
        0 <= g < buckets.len() && 0 <= h < buckets.len() && #[trigger] buckets[g].contains(i)
            && #[trigger] buckets[h].contains(i) ==> g == h
}

proof fn lemma_one_group(
    signatures: Seq<u64>,
    buckets: Seq<Seq<int>>,
    k: int,
    m: int,
    i: int,
)
    requires
        forall|g: int|
            0 <= g < buckets.len() ==> is_bucket(#[trigger] buckets[g], signatures.len() as int),
        disjoint_buckets(buckets),
        0 <= k < groups_of_buckets(signatures, buckets).len(),
        0 <= m < groups_of_buckets(signatures, buckets).len(),
        groups_of_buckets(signatures, buckets)[k].contains(i),
        groups_of_buckets(signatures, buckets)[m].contains(i),
    ensures
        k == m,
    decreases buckets.len(),
{
    let all = groups_of_buckets(signatures, buckets);
    let earlier = buckets.drop_last();
    let front = groups_of_buckets(signatures, earlier);
    let last = buckets.last();
    assert forall|g: int| 0 <= g < earlier.len() implies is_bucket(
        #[trigger] earlier[g],
        signatures.len() as int,
    ) by {
        assert(earlier[g] == buckets[g]);
    }
    assert(disjoint_buckets(earlier)) by {
        assert forall|g: int, h: int, x: int|
            0 <= g < earlier.len() && 0 <= h < earlier.len() && #[trigger] earlier[g].contains(x)
                && #[trigger] earlier[h].contains(x) implies g == h by {
            assert(earlier[g] == buckets[g]);
            assert(earlier[h] == buckets[h]);
        }
    }
    if k < front.len() && m < front.len() {
        assert(all[k] == front[k]);
        assert(all[m] == front[m]);
        lemma_one_group(signatures, earlier, k, m, i);
    } else if k >= front.len() && m >= front.len() {
        let keys = picked(signatures, last);
        let a = k - front.len();
        let b = m - front.len();
        assert(all[k] == bucket_groups(signatures, last)[a]);
        assert(all[m] == bucket_groups(signatures, last)[b]);
        lemma_bucket_group(signatures, last, a);
        lemma_bucket_group(signatures, last, b);
        assert(last.contains(i)) by {
            let n = choose|n: int| 0 <= n < all[k].len() && all[k][n] == i;
            assert(last.contains(all[k][n]));
        }
        let at = choose|at: int| 0 <= at < last.len() && last[at] == i;
        assert(duplicate_groups(keys)[a].contains(at));
        assert(duplicate_groups(keys)[b].contains(at));
        lemma_groups_disjoint(keys, a, b, at);
    } else {
        let (low, high) = if k < m {
            (k, m)
        } else {
            (m, k)
        };
        assert(low < front.len() && high >= front.len());
        assert(all[low] == front[low]);
        lemma_origin(signatures, earlier, low);
        let (g, h) = choose|g: int, h: int|
            0 <= g < earlier.len() && 0 <= h < bucket_groups(signatures, earlier[g]).len()
                && front[low] == #[trigger] bucket_groups(signatures, earlier[g])[h];
        assert(earlier[g] == buckets[g]);
        lemma_bucket_group(signatures, buckets[g], h);
        assert(buckets[g].contains(i)) by {
            let n = choose|n: int| 0 <= n < all[low].len() && all[low][n] == i;
            assert(buckets[g].contains(all[low][n]));
        }
        let b = high - front.len();
        assert(all[high] == bucket_groups(signatures, last)[b]);
        lemma_bucket_group(signatures, last, b);
        assert(last.contains(i)) by {
            let n = choose|n: int| 0 <= n < all[high].len() && all[high][n] == i;
            assert(last.contains(all[high][n]));
        }
        assert(buckets[buckets.len() - 1] == last);
        assert(false);
    }
}

proof fn lemma_stage_one(sizes: Seq<u64>)
    ensures
        forall|g: int|
            0 <= g < duplicate_groups(sizes).len() ==> is_bucket(
                #[trigger] duplicate_groups(sizes)[g],
                sizes.len() as int,
            ),
        disjoint_buckets(duplicate_groups(sizes)),
{
    let buckets = duplicate_groups(sizes);
    assert forall|g: int| 0 <= g < buckets.len() implies is_bucket(
        #[trigger] buckets[g],
        sizes.len() as int,
    ) by {
        lemma_group_members(sizes, g);
    }
    assert forall|g: int, h: int, i: int|
        0 <= g < buckets.len() && 0 <= h < buckets.len() && #[trigger] buckets[g].contains(i)
            && #[trigger] buckets[h].contains(i) implies g == h by {
        lemma_groups_disjoint(sizes, g, h, i);
    }
}

/// The paths of each group of a bucket, with the bucket's size.
pub open spec fn reported(size: u64, paths: Seq<Seq<char>>, groups: Seq<Seq<int>>) -> Seq<
    GroupView,
> {
    groups.map_values(|group: Seq<int>| GroupView { size, paths: select(paths, group) })
}

/// Stage two, given the files of one bucket with their signatures, reports
/// the run's groups of that bucket.
pub proof fn lemma_stage_two_reports(
    size: u64,
    paths: Seq<Seq<char>>,
    signatures: Seq<u64>,
    bucket: Seq<int>,
    files: Seq<SignedFile>,
)
    requires
        signed_paths(files) == select(paths, bucket),
        signatures_of(files) == picked(signatures, bucket),
    ensures
        content_groups(size, files) == reported(size, paths, bucket_groups(signatures, bucket)),
{
    let keys = picked(signatures, bucket);
    let inner = duplicate_groups(keys);
    let left = content_groups(size, files);
    let right = reported(size, paths, bucket_groups(signatures, bucket));
    assert(left.len() == right.len());
    assert forall|h: int| 0 <= h < left.len() implies left[h] == right[h] by {
        lemma_group_members(keys, h);
        assert(select(signed_paths(files), inner[h]) =~= select(paths, lifted(bucket, inner[h])));
    }
    assert(left =~= right);
}

/// Within a run, two different files with the same size and the same
/// signature are reported together in one group, and neither of them is
/// reported in any other group.
pub proof fn lemma_run_pair_grouped_once(sizes: Seq<u64>, signatures: Seq<u64>, i: int, j: int)
    requires
        sizes.len() == signatures.len(),
        0 <= i < sizes.len(),
        0 <= j < sizes.len(),
        i != j,
        sizes[i] == sizes[j],
        signatures[i] == signatures[j],
    ensures
        exists|k: int|
            {
                &&& 0 <= k < run_groups(sizes, signatures).len()
                &&& (#[trigger] run_groups(sizes, signatures)[k]).contains(i)
                &&& run_groups(sizes, signatures)[k].contains(j)
                &&& forall|m: int|
                    0 <= m < run_groups(sizes, signatures).len() && m != k ==> !(
                    #[trigger] run_groups(sizes, signatures)[m]).contains(i) && !run_groups(
                        sizes,
                        signatures,
                    )[m].contains(j)
            },
{
    let buckets = duplicate_groups(sizes);
    let all = run_groups(sizes, signatures);
    lemma_stage_one(sizes);
    lemma_pair_grouped_once(sizes, i, j);
    let g = choose|g: int|
        0 <= g < buckets.len() && (#[trigger] buckets[g]).contains(i) && buckets[g].contains(j);
    let bucket = buckets[g];
    let a = choose|a: int| 0 <= a < bucket.len() && bucket[a] == i;
    let b = choose|b: int| 0 <= b < bucket.len() && bucket[b] == j;
    let keys = picked(signatures, bucket);
    lemma_pair_grouped_once(keys, a, b);
    let h = choose|h: int|
        0 <= h < duplicate_groups(keys).len() && (#[trigger] duplicate_groups(keys)[h]).contains(a)
            && duplicate_groups(keys)[h].contains(b);
    lemma_bucket_group(signatures, bucket, h);
    lemma_placed(signatures, buckets, g, h);
    let k = choose|k: int|
        0 <= k < all.len() && #[trigger] all[k] == bucket_groups(signatures, buckets[g])[h];
    assert(all[k].contains(i));
    assert(all[k].contains(j));
    assert forall|m: int| 0 <= m < all.len() && m != k implies !(#[trigger] all[m]).contains(i)
        && !all[m].contains(j) by {
        if all[m].contains(i) {
            lemma_one_group(signatures, buckets, k, m, i);
        }
        if all[m].contains(j) {
            lemma_one_group(signatures, buckets, k, m, j);
        }
    }
}

/// Within a run, the files of one group are two or more, and they have one
/// size and one signature.
pub proof fn lemma_run_group_shares(sizes: Seq<u64>, signatures: Seq<u64>, k: int)
    requires
        sizes.len() == signatures.len(),
        0 <= k < run_groups(sizes, signatures).len(),
    ensures
        ({
            let group = run_groups(sizes, signatures)[k];
            &&& group.len() >= 2
            &&& forall|n: int|
                0 <= n < group.len() ==> {
                    &&& 0 <= #[trigger] group[n] < sizes.len()
                    &&& sizes[group[n]] == sizes[group[0]]
                    &&& signatures[group[n]] == signatures[group[0]]
                }
        }),
{
    let buckets = duplicate_groups(sizes);
    let group = run_groups(sizes, signatures)[k];
    lemma_stage_one(sizes);
    lemma_origin(signatures, buckets, k);
    let (g, h) = choose|g: int, h: int|
        0 <= g < buckets.len() && 0 <= h < bucket_groups(signatures, buckets[g]).len() && group
            == #[trigger] bucket_groups(signatures, buckets[g])[h];
    lemma_bucket_group(signatures, buckets[g], h);
    lemma_group_members(sizes, g);
    assert forall|n: int| 0 <= n < group.len() implies {
        &&& 0 <= #[trigger] group[n] < sizes.len()
        &&& sizes[group[n]] == sizes[group[0]]
        &&& signatures[group[n]] == signatures[group[0]]
    } by {
        assert(buckets[g].contains(group[n]));
        assert(buckets[g].contains(group[0]));
        let a = choose|a: int| 0 <= a < buckets[g].len() && buckets[g][a] == group[n];
        let b = choose|b: int| 0 <= b < buckets[g].len() && buckets[g][b] == group[0];
        assert(sizes[buckets[g][a]] == group_key(sizes, buckets[g]));
        assert(sizes[buckets[g][b]] == group_key(sizes, buckets[g]));
    }
}

} // verus!

//! Images that look alike: near perceptual hashes, found by bands of equal bits.
use vstd::prelude::*;
use vstd::string::*;

use crate::forest::{
    find, is_forest, joined, law_union_joins_the_two_sets, lemma_root, lemma_singletons, merges,
    root, union,
};
use crate::lists::lemma_filter_same;
use crate::numbers::{decimal, decimal_text};
use crate::record::{
    analyzed_views, group_views, item_of, item_views, AnalyzedImage, GroupView, ImageGroup, ImageItem,
    ItemView, RecordView,
};

verus! {

/// The greatest number of differing bits at which two images count as alike.
pub const SIMILAR_DISTANCE: u32 = 10;

/// The greatest number of images with one band in common that are still compared.
pub const BUCKET_LIMIT: usize = 500;

/// The number of bits that are set.
pub open spec fn ones(bits: u64) -> nat
    decreases bits,
{
    if bits == 0 {
        0
    } else {
        (bits % 2) as nat + ones(bits / 2)
    }
}

/// `u64::count_ones` counts the bits that are set.
pub assume_specification[ u64::count_ones ](bits: u64) -> (count: u32)
    ensures
        count == ones(bits),
;

/// One of the four 16-bit bands of a hash, from the lowest up.
pub open spec fn band_of(hash: u64, band: u64) -> u64 {
    (hash >> ((band * 16) as u64)) & 0xffff
}

/// Whether an image has a hash whose band is the given one.
pub open spec fn in_bucket(hash: Option<u64>, band: u64, key: u64) -> bool {
    hash matches Some(hash) && band_of(hash, band) == key
}

/// The number of images whose band is the given one.
pub open spec fn bucket_size(hashes: Seq<Option<u64>>, band: u64, key: u64) -> nat {
    hashes.filter(|hash: Option<u64>| in_bucket(hash, band, key)).len()
}

/// Whether two images have a band in common, one that few enough images share.
pub open spec fn share_band(hashes: Seq<Option<u64>>, i: int, j: int, band: u64) -> bool {
    &&& hashes[i] is Some
    &&& hashes[j] is Some
    &&& band_of(hashes[i]->0, band) == band_of(hashes[j]->0, band)
    &&& bucket_size(hashes, band, band_of(hashes[i]->0, band)) <= BUCKET_LIMIT
}

/// Whether the hashes of two images differ in few enough bits.
pub open spec fn near(hashes: Seq<Option<u64>>, i: int, j: int) -> bool {
    &&& hashes[i] is Some
    &&& hashes[j] is Some
    &&& ones(hashes[i]->0 ^ hashes[j]->0) <= SIMILAR_DISTANCE
}

/// Whether two different images are found to look alike.
pub open spec fn alike(hashes: Seq<Option<u64>>, i: int, j: int) -> bool {
    &&& 0 <= i < hashes.len()
    &&& 0 <= j < hashes.len()
    &&& i != j
    &&& near(hashes, i, j)
    &&& exists|band: u64| band < 4 && #[trigger] share_band(hashes, i, j, band)
}

/// Whether each image of a row looks like the next.
pub open spec fn is_chain(hashes: Seq<Option<u64>>, chain: Seq<int>) -> bool {
    &&& chain.len() > 0
    &&& forall|k: int| 0 <= k < chain.len() ==> 0 <= (#[trigger] chain[k]) < hashes.len()
    &&& forall|k: int|
        0 <= k < chain.len() - 1 ==> alike(hashes, #[trigger] chain[k], chain[k + 1])
}

/// Whether a row of images that look alike, one and the next, leads from one image to
/// another.
pub open spec fn connected(hashes: Seq<Option<u64>>, i: int, j: int) -> bool {
    exists|chain: Seq<int>| #[trigger]
        is_chain(hashes, chain) && chain[0] == i && chain.last() == j
}

/// Whether a table names, for each image, one image of those connected with it, the same one
/// for all of them.
pub open spec fn are_components(hashes: Seq<Option<u64>>, roots: Seq<usize>) -> bool {
    &&& roots.len() == hashes.len()
    &&& forall|i: int|
        0 <= i < roots.len() ==> (#[trigger] roots[i]) < roots.len() && roots[roots[i] as int]
            == roots[i]
    &&& forall|i: int, j: int|
        0 <= i < roots.len() && 0 <= j < roots.len() ==> ((#[trigger] roots[i]) == (
        #[trigger] roots[j]) <==> connected(hashes, i, j))
}

/// The first `n` images whose entry in a table is the given one, in order.
pub open spec fn members(roots: Seq<usize>, top: int, n: nat) -> Seq<int>
    decreases n,
{
    if n == 0 {
        Seq::empty()
    } else if roots[n - 1] == top {
        members(roots, top, (n - 1) as nat).push(n - 1)
    } else {
        members(roots, top, (n - 1) as nat)
    }
}

/// The group of the images whose entry in a table is the given one.
pub open spec fn similar_group(
    images: Seq<RecordView>,
    roots: Seq<usize>,
    top: int,
) -> GroupView {
    GroupView {
        id: "similar-"@ + decimal(top as nat),
        title: "見た目が近い画像"@,
        items: members(roots, top, roots.len()).map_values(|i: int| item_of(images[i])),
    }
}

/// The groups below the first `n` entries of a table, those of one image left out.
pub open spec fn similar_groups(
    images: Seq<RecordView>,
    roots: Seq<usize>,
    n: nat,
) -> Seq<GroupView>
    decreases n,
{
    if n == 0 {
        Seq::empty()
    } else {
        let before = similar_groups(images, roots, (n - 1) as nat);
        if members(roots, n - 1, roots.len()).len() >= 2 {
            before.push(similar_group(images, roots, n - 1))
        } else {
            before
        }
    }
}

/// The hashes of a list of images.
pub open spec fn hashes_of(images: Seq<RecordView>) -> Seq<Option<u64>> {
    images.map_values(|image: RecordView| image.perceptual_hash)
}

/// Whether groups are those of the images that look alike: each holds the images connected
/// with one another, two at least, in order. Which of its images gives a group its number
/// is left open.
pub open spec fn are_similar_groups(images: Seq<RecordView>, groups: Seq<GroupView>) -> bool {
    exists|roots: Seq<usize>| #[trigger]
        are_components(hashes_of(images), roots) && groups == similar_groups(
            images,
            roots,
            images.len(),
        )
}

/// The first `n` images in a bucket, in order.
pub open spec fn bucket_members(
    hashes: Seq<Option<u64>>,
    band: u64,
    key: u64,
    n: nat,
) -> Seq<usize>
    decreases n,
{
    if n == 0 {
        Seq::empty()
    } else if in_bucket(hashes[n - 1], band, key) {
        bucket_members(hashes, band, key, (n - 1) as nat).push((n - 1) as usize)
    } else {
        bucket_members(hashes, band, key, (n - 1) as nat)
    }
}

/// A bucket holds the indices of its images, in ascending order, and is as large as counted.
proof fn lemma_bucket_members(hashes: Seq<Option<u64>>, band: u64, key: u64, n: nat)
    requires
        n <= hashes.len() <= usize::MAX,
    ensures
        forall|k: int|
            0 <= k < bucket_members(hashes, band, key, n).len() ==> {
                let i = #[trigger] bucket_members(hashes, band, key, n)[k];
                i < n && in_bucket(hashes[i as int], band, key)
            },
        forall|k: int, m: int|
            0 <= k < m < bucket_members(hashes, band, key, n).len() ==> bucket_members(
                hashes,
                band,
                key,
                n,
            )[k] < bucket_members(hashes, band, key, n)[m],
        forall|i: int|
            0 <= i < n && in_bucket(#[trigger] hashes[i], band, key) ==> bucket_members(
                hashes,
                band,
                key,
                n,
            ).contains(i as usize),
        bucket_members(hashes, band, key, n).len() == hashes.take(n as int).filter(
            |hash: Option<u64>| in_bucket(hash, band, key),
        ).len(),
    decreases n,
{
    reveal(Seq::filter);
    let all = bucket_members(hashes, band, key, n);
    if n > 0 {
        let shorter = bucket_members(hashes, band, key, (n - 1) as nat);
        lemma_bucket_members(hashes, band, key, (n - 1) as nat);
        assert(hashes.take(n as int).drop_last() =~= hashes.take(n - 1));
        assert forall|i: int|
            0 <= i < n && in_bucket(#[trigger] hashes[i], band, key) implies all.contains(
            i as usize,
        ) by {
            if i == n - 1 {
                assert(all[all.len() - 1] == i);
            } else {
                assert(shorter.contains(i as usize));
                let k = choose|k: int| 0 <= k < shorter.len() && shorter[k] == i as usize;
                assert(all[k] == i as usize);
            }
        }
    }
}

/// One image is connected with itself.
proof fn lemma_connected_self(hashes: Seq<Option<u64>>, i: int)
    requires
        0 <= i < hashes.len(),
    ensures
        connected(hashes, i, i),
{
    assert(is_chain(hashes, seq![i]));
}

proof fn lemma_alike_symmetric(hashes: Seq<Option<u64>>, i: int, j: int)
    requires
        alike(hashes, i, j),
    ensures
        alike(hashes, j, i),
{
    let a = hashes[i]->0;
    let b = hashes[j]->0;
    assert(a ^ b == b ^ a) by (bit_vector);
    let band = choose|band: u64| band < 4 && #[trigger] share_band(hashes, i, j, band);
    assert(share_band(hashes, j, i, band));
}

/// Two images that look alike are connected.
proof fn lemma_connected_pair(hashes: Seq<Option<u64>>, i: int, j: int)
    requires
        alike(hashes, i, j),
    ensures
        connected(hashes, i, j),
{
    assert(is_chain(hashes, seq![i, j]));
}

/// Connection does not depend on direction.
pub proof fn law_connected_symmetric(hashes: Seq<Option<u64>>, i: int, j: int)
    requires
        connected(hashes, i, j),
    ensures
        connected(hashes, j, i),
{
    let chain = choose|chain: Seq<int>| #[trigger]
        is_chain(hashes, chain) && chain[0] == i && chain.last() == j;
    let back = chain.reverse();
    assert forall|k: int| 0 <= k < back.len() - 1 implies alike(
        hashes,
        #[trigger] back[k],
        back[k + 1],
    ) by {
        let m = chain.len() - 2 - k;
        assert(alike(hashes, chain[m], chain[m + 1]));
        lemma_alike_symmetric(hashes, chain[m], chain[m + 1]);
    }
    assert(is_chain(hashes, back));
}

/// Connection passes on.
pub proof fn law_connected_transitive(hashes: Seq<Option<u64>>, i: int, j: int, k: int)
    requires
        connected(hashes, i, j),
        connected(hashes, j, k),
    ensures
        connected(hashes, i, k),
{
    let first = choose|chain: Seq<int>| #[trigger]
        is_chain(hashes, chain) && chain[0] == i && chain.last() == j;
    let second = choose|chain: Seq<int>| #[trigger]
        is_chain(hashes, chain) && chain[0] == j && chain.last() == k;
    let whole = first + second.skip(1);
    assert forall|m: int| 0 <= m < whole.len() implies 0 <= (#[trigger] whole[m])
        < hashes.len() by {
        if m < first.len() {
            assert(whole[m] == first[m]);
        } else {
            assert(whole[m] == second[m - first.len() + 1]);
        }
    }
    assert forall|m: int| 0 <= m < whole.len() - 1 implies alike(
        hashes,
        #[trigger] whole[m],
        whole[m + 1],
    ) by {
        if m + 1 < first.len() {
            assert(alike(hashes, first[m], first[m + 1]));
        } else {
            let s = m + 1 - first.len();
            assert(alike(hashes, second[s], second[s + 1]));
            if s == 0 {
                assert(whole[m] == first.last());
            }
        }
    }
    assert(is_chain(hashes, whole));
    if second.len() > 1 {
        assert(whole.last() == second.last());
    } else {
        assert(whole =~= first);
    }
}

/// A table of sets in which all images that look alike are joined joins every connected
/// pair.
proof fn lemma_joined_along(
    hashes: Seq<Option<u64>>,
    parent: Seq<usize>,
    chain: Seq<int>,
)
    requires
        is_chain(hashes, chain),
        forall|i: int, j: int| #[trigger] alike(hashes, i, j) ==> joined(parent, i, j),
    ensures
        joined(parent, chain[0], chain.last()),
    decreases chain.len(),
{
    if chain.len() > 1 {
        let front = chain.drop_last();
        assert forall|k: int| 0 <= k < front.len() implies 0 <= (#[trigger] front[k])
            < hashes.len() by {
            assert(front[k] == chain[k]);
        }
        assert forall|k: int| 0 <= k < front.len() - 1 implies alike(
            hashes,
            #[trigger] front[k],
            front[k + 1],
        ) by {
            assert(alike(hashes, chain[k], chain[k + 1]));
        }
        lemma_joined_along(hashes, parent, front);
        assert(alike(hashes, chain[chain.len() - 2], chain[chain.len() - 1]));
    }
}

/// Whether the sets of a table join connected images only.
pub open spec fn is_sound(hashes: Seq<Option<u64>>, parent: Seq<usize>) -> bool {
    &&& parent.len() == hashes.len()
    &&& is_forest(parent)
    &&& forall|i: int, j: int|
        0 <= i < parent.len() && 0 <= j < parent.len() && #[trigger] joined(parent, i, j)
            ==> connected(hashes, i, j)
}

/// Whether a table joins all that another joins.
pub open spec fn extends(before: Seq<usize>, after: Seq<usize>) -> bool {
    &&& after.len() == before.len()
    &&& forall|i: int, j: int|
        0 <= i < before.len() && 0 <= j < before.len() && #[trigger] joined(before, i, j)
            ==> joined(after, i, j)
}

/// Joining two images that look alike keeps a table sound.
proof fn lemma_merge_sound(
    hashes: Seq<Option<u64>>,
    before: Seq<usize>,
    after: Seq<usize>,
    left: int,
    right: int,
)
    requires
        is_sound(hashes, before),
        alike(hashes, left, right),
        merges(before, after, left, right),
    ensures
        is_sound(hashes, after),
        extends(before, after),
        joined(after, left, right),
{
    law_union_joins_the_two_sets(before, after, left, right, left, right);
    lemma_connected_pair(hashes, left, right);
    law_connected_symmetric(hashes, left, right);
    assert forall|i: int, j: int|
        0 <= i < after.len() && 0 <= j < after.len() && #[trigger] joined(
            after,
            i,
            j,
        ) implies connected(hashes, i, j) by {
        law_union_joins_the_two_sets(before, after, left, right, i, j);
        if joined(before, i, j) {
        } else if joined(before, i, left) && joined(before, right, j) {
            law_connected_transitive(hashes, i, left, right);
            law_connected_transitive(hashes, i, right, j);
        } else {
            assert(joined(before, i, right) && joined(before, left, j));
            law_connected_transitive(hashes, i, right, left);
            law_connected_transitive(hashes, i, left, j);
        }
    }
    assert forall|i: int, j: int|
        0 <= i < before.len() && 0 <= j < before.len() && #[trigger] joined(
            before,
            i,
            j,
        ) implies joined(after, i, j) by {
        law_union_joins_the_two_sets(before, after, left, right, i, j);
    }
}

/// The images of each bucket of a band, by the band's bits.
fn band_buckets(hashes: &Vec<Option<u64>>, band: u64) -> (buckets: Vec<Vec<usize>>)
    requires
        band < 4,
    ensures
        buckets@.len() == 0x10000,
        forall|key: int|
            0 <= key < 0x10000 ==> (#[trigger] buckets@[key])@ == bucket_members(
                hashes@,
                band,
                key as u64,
                hashes@.len(),
            ),
{
    let mut buckets: Vec<Vec<usize>> = Vec::with_capacity(0x10000);
    let mut filled: usize = 0;
    while filled < 0x10000
        invariant
            filled <= 0x10000,
            buckets@.len() == filled,
            forall|key: int|
                0 <= key < filled ==> (#[trigger] buckets@[key])@ == Seq::<usize>::empty(),
        decreases 0x10000 - filled,
    {
        buckets.push(Vec::new());
        filled = filled + 1;
    }
    let mut i: usize = 0;
    while i < hashes.len()
        invariant
            band < 4,
            i <= hashes@.len(),
            buckets@.len() == 0x10000,
            forall|key: int|
                0 <= key < 0x10000 ==> (#[trigger] buckets@[key])@ == bucket_members(
                    hashes@,
                    band,
                    key as u64,
                    i as nat,
                ),
        decreases hashes@.len() - i,
    {
        if let Some(hash) = hashes[i] {
            let key: u64 = (hash >> (band * 16)) & 0xffff;
            let shift: u64 = band * 16;
            assert((hash >> shift) & 0xffff < 0x10000) by (bit_vector)
                requires
                    shift < 64,
            ;
            assert(key == band_of(hash, band));
            let ghost old_buckets = buckets@;
            buckets[key as usize].push(i);
            assert forall|k: int| 0 <= k < 0x10000 implies (#[trigger] buckets@[k])@
                == bucket_members(hashes@, band, k as u64, (i + 1) as nat) by {
                if k != key {
                    assert(buckets@[k] == old_buckets[k]);
                }
            }
        }
        i = i + 1;
    }
    buckets
}

/// Whether the pairs of a bucket that come before a place have been joined where they look
/// alike.
spec fn joined_before(
    hashes: Seq<Option<u64>>,
    parent: Seq<usize>,
    bucket: Seq<usize>,
    a: int,
    b: int,
) -> bool {
    forall|k: int, m: int|
        #![trigger bucket[k], bucket[m]]
        0 <= k < m < bucket.len() && (k < a || (k == a && m < b)) && near(
            hashes,
            bucket[k] as int,
            bucket[m] as int,
        ) ==> joined(parent, bucket[k] as int, bucket[m] as int)
}

/// Joins the images of one bucket that are near one another.
fn join_bucket(
    parent: &mut Vec<usize>,
    hashes: &Vec<Option<u64>>,
    bucket: &Vec<usize>,
    band: u64,
    key: u64,
)
    requires
        band < 4,
        is_sound(hashes@, old(parent)@),
        bucket@ == bucket_members(hashes@, band, key, hashes@.len()),
        bucket@.len() <= BUCKET_LIMIT,
    ensures
        is_sound(hashes@, final(parent)@),
        extends(old(parent)@, final(parent)@),
        joined_before(hashes@, final(parent)@, bucket@, bucket@.len() as int, 0),
{
    proof {
        assert(hashes.len() == hashes@.len());
        lemma_bucket_members(hashes@, band, key, hashes@.len());
        assert(hashes@.take(hashes@.len() as int) =~= hashes@);
    }
    let ghost start = parent@;
    let mut a: usize = 0;
    while a < bucket.len()
        invariant
            band < 4,
            a <= bucket@.len(),
            bucket@ == bucket_members(hashes@, band, key, hashes@.len()),
            bucket_size(hashes@, band, key) <= BUCKET_LIMIT,
            forall|k: int|
                0 <= k < bucket@.len() ==> (#[trigger] bucket@[k]) < hashes@.len() && in_bucket(
                    hashes@[bucket@[k] as int],
                    band,
                    key,
                ),
            forall|k: int, m: int| 0 <= k < m < bucket@.len() ==> bucket@[k] < bucket@[m],
            is_sound(hashes@, parent@),
            extends(start, parent@),
            joined_before(hashes@, parent@, bucket@, a as int, 0),
        decreases bucket@.len() - a,
    {
        let mut b: usize = a + 1;
        assert(joined_before(hashes@, parent@, bucket@, a as int, b as int));
        while b < bucket.len()
            invariant
                band < 4,
                a < b <= bucket@.len(),
                bucket@ == bucket_members(hashes@, band, key, hashes@.len()),
                bucket_size(hashes@, band, key) <= BUCKET_LIMIT,
                forall|k: int|
                    0 <= k < bucket@.len() ==> (#[trigger] bucket@[k]) < hashes@.len() && in_bucket(
                        hashes@[bucket@[k] as int],
                        band,
                        key,
                    ),
                forall|k: int, m: int| 0 <= k < m < bucket@.len() ==> bucket@[k] < bucket@[m],
                is_sound(hashes@, parent@),
                extends(start, parent@),
                joined_before(hashes@, parent@, bucket@, a as int, b as int),
            decreases bucket@.len() - b,
        {
            let left: usize = bucket[a];
            let right: usize = bucket[b];
            let ghost before = parent@;
            if let (Some(left_hash), Some(right_hash)) = (hashes[left], hashes[right]) {
                if (left_hash ^ right_hash).count_ones() <= SIMILAR_DISTANCE {
                    proof {
                        assert(in_bucket(hashes@[bucket@[a as int] as int], band, key));
                        assert(in_bucket(hashes@[bucket@[b as int] as int], band, key));
                        assert(share_band(hashes@, left as int, right as int, band));
                        assert(alike(hashes@, left as int, right as int));
                    }
                    union(parent, left, right);
                    proof {
                        lemma_merge_sound(
                            hashes@,
                            before,
                            parent@,
                            left as int,
                            right as int,
                        );
                    }
                }
            }
            assert(joined_before(hashes@, parent@, bucket@, a as int, b + 1)) by {
                assert forall|k: int, m: int|
                    #![trigger bucket@[k], bucket@[m]]
                    0 <= k < m < bucket@.len() && (k < a || (k == a && m < b + 1)) && near(
                        hashes@,
                        bucket@[k] as int,
                        bucket@[m] as int,
                    ) implies joined(parent@, bucket@[k] as int, bucket@[m] as int) by {
                    if !(k == a && m == b) {
                        assert(joined(before, bucket@[k] as int, bucket@[m] as int));
                    }
                }
            }
            b = b + 1;
        }
        a = a + 1;
    }
}

/// Joins the images that are near one another and share one band.
fn join_band(parent: &mut Vec<usize>, hashes: &Vec<Option<u64>>, band: u64)
    requires
        band < 4,
        is_sound(hashes@, old(parent)@),
    ensures
        is_sound(hashes@, final(parent)@),
        extends(old(parent)@, final(parent)@),
        forall|i: int, j: int|
            0 <= i < hashes@.len() && 0 <= j < hashes@.len() && i != j && near(hashes@, i, j)
                && #[trigger] share_band(hashes@, i, j, band) ==> joined(final(parent)@, i, j),
{
    let buckets: Vec<Vec<usize>> = band_buckets(hashes, band);
    let ghost start = parent@;
    let mut key: usize = 0;
    while key < 0x10000
        invariant
            band < 4,
            key <= 0x10000,
            buckets@.len() == 0x10000,
            forall|k: int|
                0 <= k < 0x10000 ==> (#[trigger] buckets@[k])@ == bucket_members(
                    hashes@,
                    band,
                    k as u64,
                    hashes@.len(),
                ),
            is_sound(hashes@, parent@),
            extends(start, parent@),
            forall|i: int, j: int|
                0 <= i < hashes@.len() && 0 <= j < hashes@.len() && i != j && near(hashes@, i, j)
                    && #[trigger] share_band(hashes@, i, j, band) && band_of(hashes@[i]->0, band)
                    < key ==> joined(parent@, i, j),
        decreases 0x10000 - key,
    {
        let bucket: &Vec<usize> = &buckets[key];
        let ghost before = parent@;
        proof {
            assert(hashes.len() == hashes@.len());
            lemma_bucket_members(hashes@, band, key as u64, hashes@.len());
            assert(hashes@.take(hashes@.len() as int) =~= hashes@);
        }
        if bucket.len() <= BUCKET_LIMIT {
            join_bucket(parent, hashes, bucket, band, key as u64);
        }
        assert forall|i: int, j: int|
            0 <= i < hashes@.len() && 0 <= j < hashes@.len() && i != j && near(hashes@, i, j)
                && #[trigger] share_band(hashes@, i, j, band) && band_of(hashes@[i]->0, band) < key
                + 1 implies joined(parent@, i, j) by {
            if band_of(hashes@[i]->0, band) == key {
                assert(in_bucket(hashes@[i], band, key as u64));
                assert(in_bucket(hashes@[j], band, key as u64));
                assert(bucket@.contains(i as usize));
                assert(bucket@.contains(j as usize));
                let k = choose|k: int| 0 <= k < bucket@.len() && bucket@[k] == i as usize;
                let m = choose|m: int| 0 <= m < bucket@.len() && bucket@[m] == j as usize;
                let a = hashes@[i]->0;
                let b = hashes@[j]->0;
                assert(a ^ b == b ^ a) by (bit_vector);
                assert(near(hashes@, j, i));
                if k < m {
                    assert(joined(parent@, bucket@[k] as int, bucket@[m] as int));
                } else {
                    assert(joined(parent@, bucket@[m] as int, bucket@[k] as int));
                }
            } else {
                assert(joined(before, i, j));
            }
        }
        key = key + 1;
    }
    assert forall|i: int, j: int|
        0 <= i < hashes@.len() && 0 <= j < hashes@.len() && i != j && near(hashes@, i, j)
            && #[trigger] share_band(hashes@, i, j, band) implies joined(parent@, i, j) by {
        let hash = hashes@[i]->0;
        let shift = (band * 16) as u64;
        assert((hash >> shift) & 0xffff < 0x10000) by (bit_vector)
            requires
                shift < 64,
        ;
    }
}

/// For each image, one image of those connected with it, the same one for all of them.
pub fn similar_roots(hashes: &Vec<Option<u64>>) -> (roots: Vec<usize>)
    ensures
        are_components(hashes@, roots@),
{
    let mut parent: Vec<usize> = Vec::with_capacity(hashes.len());
    let mut filled: usize = 0;
    while filled < hashes.len()
        invariant
            filled <= hashes@.len(),
            parent@.len() == filled,
            forall|i: int| 0 <= i < filled ==> (#[trigger] parent@[i]) == i,
        decreases hashes@.len() - filled,
    {
        parent.push(filled);
        filled = filled + 1;
    }
    proof {
        lemma_singletons(parent@);
        assert forall|i: int, j: int|
            0 <= i < parent@.len() && 0 <= j < parent@.len() && #[trigger] joined(
                parent@,
                i,
                j,
            ) implies connected(hashes@, i, j) by {
            assert(root(parent@, i) == i && root(parent@, j) == j);
            lemma_connected_self(hashes@, i);
        }
    }
    let mut band: u64 = 0;
    while band < 4
        invariant
            band <= 4,
            is_sound(hashes@, parent@),
            forall|i: int, j: int, done: u64|
                0 <= i < hashes@.len() && 0 <= j < hashes@.len() && i != j && near(hashes@, i, j)
                    && done < band && #[trigger] share_band(hashes@, i, j, done) ==> joined(
                    parent@,
                    i,
                    j,
                ),
        decreases 4 - band,
    {
        let ghost before = parent@;
        join_band(&mut parent, hashes, band);
        assert forall|i: int, j: int, done: u64|
            0 <= i < hashes@.len() && 0 <= j < hashes@.len() && i != j && near(hashes@, i, j)
                && done < band + 1 && #[trigger] share_band(hashes@, i, j, done) implies joined(
            parent@,
            i,
            j,
        ) by {
            if done < band {
                assert(joined(before, i, j));
            }
        }
        band = band + 1;
    }
    let ghost settled = parent@;
    proof {
        assert forall|i: int, j: int| #[trigger] alike(hashes@, i, j) implies joined(
            settled,
            i,
            j,
        ) by {
            let band = choose|band: u64| band < 4 && #[trigger] share_band(hashes@, i, j, band);
            assert(share_band(hashes@, i, j, band));
        }
        assert forall|i: int, j: int|
            0 <= i < settled.len() && 0 <= j < settled.len() && connected(
                hashes@,
                i,
                j,
            ) implies #[trigger] joined(settled, i, j) by {
            let chain = choose|chain: Seq<int>| #[trigger]
                is_chain(hashes@, chain) && chain[0] == i && chain.last() == j;
            lemma_joined_along(hashes@, settled, chain);
        }
    }
    let mut roots: Vec<usize> = Vec::with_capacity(hashes.len());
    let mut index: usize = 0;
    while index < hashes.len()
        invariant
            index <= hashes@.len(),
            parent@.len() == hashes@.len(),
            settled.len() == hashes@.len(),
            is_forest(parent@),
            forall|i: int| 0 <= i < settled.len() ==> #[trigger] root(parent@, i) == root(settled, i),
            roots@.len() == index,
            forall|i: int| 0 <= i < index ==> (#[trigger] roots@[i]) == root(settled, i),
        decreases hashes@.len() - index,
    {
        let top: usize = find(&mut parent, index);
        roots.push(top);
        index = index + 1;
    }
    proof {
        assert forall|i: int| 0 <= i < roots@.len() implies (#[trigger] roots@[i]) < roots@.len()
            && roots@[roots@[i] as int] == roots@[i] by {
            lemma_root(settled, i);
        }
        assert forall|i: int, j: int|
            0 <= i < roots@.len() && 0 <= j < roots@.len() implies ((#[trigger] roots@[i]) == (
        #[trigger] roots@[j]) <==> connected(hashes@, i, j)) by {
            assert(joined(settled, i, j) <==> roots@[i] == roots@[j]);
        }
    }
    roots
}

/// A list of members holds the indices with the given entry, in ascending order.
pub proof fn lemma_members(roots: Seq<usize>, top: int, n: nat)
    requires
        n <= roots.len(),
    ensures
        forall|k: int|
            0 <= k < members(roots, top, n).len() ==> {
                let i = #[trigger] members(roots, top, n)[k];
                0 <= i < n && roots[i] == top
            },
        forall|k: int, m: int|
            0 <= k < m < members(roots, top, n).len() ==> members(roots, top, n)[k] < members(
                roots,
                top,
                n,
            )[m],
        forall|i: int|
            0 <= i < n && (#[trigger] roots[i]) == top ==> members(roots, top, n).contains(i),
    decreases n,
{
    if n > 0 {
        lemma_members(roots, top, (n - 1) as nat);
        let all = members(roots, top, n);
        let shorter = members(roots, top, (n - 1) as nat);
        assert forall|i: int| 0 <= i < n && (#[trigger] roots[i]) == top implies all.contains(
            i,
        ) by {
            if i == n - 1 {
                assert(all[all.len() - 1] == i);
            } else {
                assert(shorter.contains(i));
                let k = choose|k: int| 0 <= k < shorter.len() && shorter[k] == i;
                assert(all[k] == i);
            }
        }
    }
}

/// The groups of images with the same entry in a table, those of one image left out.
pub fn group_by_root(images: &[AnalyzedImage], roots: &Vec<usize>) -> (groups: Vec<ImageGroup>)
    requires
        roots@.len() == images@.len(),
        forall|i: int| 0 <= i < roots@.len() ==> (#[trigger] roots@[i]) < roots@.len(),
    ensures
        group_views(groups@) == similar_groups(
            analyzed_views(images@),
            roots@,
            images@.len(),
        ),
{
    let ghost views = analyzed_views(images@);
    let mut listed: Vec<Vec<ImageItem>> = Vec::with_capacity(roots.len());
    let mut filled: usize = 0;
    while filled < roots.len()
        invariant
            filled <= roots@.len(),
            listed@.len() == filled,
            forall|t: int| 0 <= t < filled ==> (#[trigger] listed@[t])@ == Seq::<ImageItem>::empty(),
        decreases roots@.len() - filled,
    {
        listed.push(Vec::new());
        filled = filled + 1;
    }
    let mut index: usize = 0;
    assert forall|t: int| 0 <= t < listed@.len() implies item_views((#[trigger] listed@[t])@)
        == member_items(views, roots@, t, 0) by {
        assert(item_views(listed@[t]@) =~= member_items(views, roots@, t, 0));
    }
    while index < roots.len()
        invariant
            index <= roots@.len(),
            views == analyzed_views(images@),
            listed@.len() == roots@.len() == images@.len(),
            forall|i: int| 0 <= i < roots@.len() ==> (#[trigger] roots@[i]) < roots@.len(),
            forall|t: int|
                0 <= t < listed@.len() ==> item_views((#[trigger] listed@[t])@) == member_items(
                    views,
                    roots@,
                    t,
                    index as nat,
                ),
        decreases roots@.len() - index,
    {
        let top: usize = roots[index];
        let item: ImageItem = images[index].item();
        let ghost added = item@;
        let ghost before = listed@;
        listed[top].push(item);
        assert forall|t: int| 0 <= t < listed@.len() implies item_views((#[trigger] listed@[t])@)
            == member_items(views, roots@, t, (index + 1) as nat) by {
            if t == top {
                assert(item_views(listed@[t]@) =~= item_views(before[t]@).push(added));
                assert(member_items(views, roots@, t, (index + 1) as nat) =~= member_items(
                    views,
                    roots@,
                    t,
                    index as nat,
                ).push(added));
            } else {
                assert(listed@[t] == before[t]);
            }
        }
        index = index + 1;
    }
    let mut groups: Vec<ImageGroup> = Vec::new();
    let mut top: usize = 0;
    assert(group_views(groups@) =~= Seq::empty());
    while top < listed.len()
        invariant
            top <= listed@.len(),
            listed@.len() == roots@.len() == images@.len(),
            views == analyzed_views(images@),
            forall|t: int|
                top <= t < listed@.len() ==> item_views((#[trigger] listed@[t])@) == member_items(
                    views,
                    roots@,
                    t,
                    roots@.len(),
                ),
            group_views(groups@) == similar_groups(views, roots@, top as nat),
        decreases listed@.len() - top,
    {
        assert(item_views(listed@[top as int]@).len() == listed@[top as int]@.len());
        if listed[top].len() >= 2 {
            let mut items: Vec<ImageItem> = Vec::new();
            let ghost before = listed@;
            std::mem::swap(&mut listed[top], &mut items);
            assert(forall|t: int|
                top < t < listed@.len() ==> (#[trigger] listed@[t]) == before[t]);
            let mut id: String = "similar-".to_string();
            id.append(decimal_text(top as u64).as_str());
            let group: ImageGroup = ImageGroup {
                id,
                title: "見た目が近い画像".to_string(),
                items,
            };
            let ghost earlier = groups@;
            let ghost added = group@;
            assert(added =~= similar_group(views, roots@, top as int));
            groups.push(group);
            assert(group_views(groups@) =~= group_views(earlier).push(added));
        }
        top = top + 1;
    }
    groups
}

/// What is shown of the first `n` images whose entry in a table is the given one.
spec fn member_items(
    images: Seq<RecordView>,
    roots: Seq<usize>,
    top: int,
    n: nat,
) -> Seq<ItemView> {
    members(roots, top, n).map_values(|i: int| item_of(images[i]))
}

/// The groups of images that look alike.
pub fn build_similar_groups_bucketed(images: &[AnalyzedImage]) -> (groups: Vec<ImageGroup>)
    ensures
        are_similar_groups(analyzed_views(images@), group_views(groups@)),
{
    let ghost views = analyzed_views(images@);
    let mut hashes: Vec<Option<u64>> = Vec::with_capacity(images.len());
    let mut i: usize = 0;
    while i < images.len()
        invariant
            i <= images@.len(),
            views == analyzed_views(images@),
            hashes@ =~= hashes_of(views).take(i as int),
        decreases images@.len() - i,
    {
        hashes.push(images[i].record.perceptual_hash);
        i = i + 1;
    }
    assert(hashes@ =~= hashes_of(views));
    let roots: Vec<usize> = similar_roots(&hashes);
    group_by_root(images, &roots)
}

/// Every group holds two images at least.
pub proof fn law_similar_group_has_two(images: Seq<RecordView>, groups: Seq<GroupView>)
    requires
        are_similar_groups(images, groups),
    ensures
        forall|g: int| 0 <= g < groups.len() ==> (#[trigger] groups[g]).items.len() >= 2,
{
    let roots = choose|roots: Seq<usize>| #[trigger]
        are_components(hashes_of(images), roots) && groups == similar_groups(
            images,
            roots,
            images.len(),
        );
    let tops = lemma_group_tops(images, roots, images.len());
    assert forall|g: int| 0 <= g < groups.len() implies (#[trigger] groups[g]).items.len()
        >= 2 by {
        assert(groups[g] == similar_group(images, roots, tops[g]));
    }
}

/// Every top with two members at least has its group listed.
proof fn lemma_groups_listed(images: Seq<RecordView>, roots: Seq<usize>, n: nat)
    ensures
        forall|top: int|
            0 <= top < n && #[trigger] members(roots, top, roots.len()).len() >= 2
                ==> similar_groups(images, roots, n).contains(similar_group(images, roots, top)),
    decreases n,
{
    if n > 0 {
        lemma_groups_listed(images, roots, (n - 1) as nat);
        let all = similar_groups(images, roots, n);
        let shorter = similar_groups(images, roots, (n - 1) as nat);
        assert forall|top: int|
            0 <= top < n && #[trigger] members(
                roots,
                top,
                roots.len(),
            ).len() >= 2 implies all.contains(similar_group(images, roots, top)) by {
            if top == n - 1 {
                assert(all[all.len() - 1] == similar_group(images, roots, top));
            } else {
                let group = similar_group(images, roots, top);
                assert(shorter.contains(group));
                let k = choose|k: int| 0 <= k < shorter.len() && shorter[k] == group;
                assert(all[k] == group);
            }
        }
    }
}

/// Two images that look alike are shown in one group.
pub proof fn law_alike_images_share_a_group(
    images: Seq<RecordView>,
    groups: Seq<GroupView>,
    i: int,
    j: int,
)
    requires
        are_similar_groups(images, groups),
        alike(hashes_of(images), i, j),
    ensures
        exists|g: int|
            0 <= g < groups.len() && (#[trigger] groups[g]).items.contains(item_of(images[i]))
                && groups[g].items.contains(item_of(images[j])),
{
    let hashes = hashes_of(images);
    let roots = choose|roots: Seq<usize>| #[trigger]
        are_components(hashes, roots) && groups == similar_groups(images, roots, images.len());
    lemma_connected_pair(hashes, i, j);
    let top = roots[i] as int;
    assert(roots[i] == roots[j]);
    let listed = members(roots, top, roots.len());
    lemma_members(roots, top, roots.len());
    assert(listed.contains(i) && listed.contains(j));
    let k = choose|k: int| 0 <= k < listed.len() && listed[k] == i;
    let m = choose|m: int| 0 <= m < listed.len() && listed[m] == j;
    assert(k != m);
    lemma_groups_listed(images, roots, images.len());
    let group = similar_group(images, roots, top);
    assert(groups.contains(group));
    let g = choose|g: int| 0 <= g < groups.len() && groups[g] == group;
    assert(group.items[k] == item_of(images[i]));
    assert(group.items[m] == item_of(images[j]));
    assert(groups[g].items.contains(item_of(images[i])));
}

/// The images of one group are all connected, and no image belongs to two groups.
pub proof fn law_similar_groups_are_components(
    images: Seq<RecordView>,
    groups: Seq<GroupView>,
) -> (places: Seq<Seq<int>>)
    requires
        are_similar_groups(images, groups),
    ensures
        places.len() == groups.len(),
        forall|g: int|
            0 <= g < groups.len() ==> groups[g].items == (#[trigger] places[g]).map_values(
                |i: int| item_of(images[i]),
            ),
        forall|g: int, k: int|
            0 <= g < places.len() && 0 <= k < places[g].len() ==> 0 <= (#[trigger] places[g][k])
                < images.len(),
        forall|g: int, h: int, k: int, m: int|
            0 <= g < places.len() && 0 <= h < places.len() && 0 <= k < places[g].len() && 0 <= m
                < places[h].len() ==> (g == h <==> connected(
                hashes_of(images),
                #[trigger] places[g][k],
                #[trigger] places[h][m],
            )),
{
    let hashes = hashes_of(images);
    let roots = choose|roots: Seq<usize>| #[trigger]
        are_components(hashes, roots) && groups == similar_groups(images, roots, images.len());
    let tops = lemma_group_tops(images, roots, images.len());
    let places = Seq::new(tops.len(), |g: int| members(roots, tops[g], roots.len()));
    assert forall|g: int| 0 <= g < groups.len() implies groups[g].items == (
    #[trigger] places[g]).map_values(|i: int| item_of(images[i])) by {
        assert(groups[g] == similar_group(images, roots, tops[g]));
    }
    assert forall|g: int, k: int| 0 <= g < places.len() && 0 <= k < places[g].len() implies 0 <= (
    #[trigger] places[g][k]) < images.len() && roots[places[g][k]] == tops[g] by {
        lemma_members(roots, tops[g], roots.len());
    }
    places
}

/// The tops of the groups listed.
proof fn lemma_group_tops(images: Seq<RecordView>, roots: Seq<usize>, n: nat) -> (tops: Seq<int>)
    ensures
        tops.len() == similar_groups(images, roots, n).len(),
        forall|g: int|
            0 <= g < tops.len() ==> 0 <= (#[trigger] tops[g]) < n && members(
                roots,
                tops[g],
                roots.len(),
            ).len() >= 2 && similar_groups(images, roots, n)[g] == similar_group(
                images,
                roots,
                tops[g],
            ),
        forall|g: int, h: int| 0 <= g < h < tops.len() ==> tops[g] < tops[h],
        forall|top: int|
            0 <= top < n && #[trigger] members(roots, top, roots.len()).len() >= 2
                ==> tops.contains(top),
    decreases n,
{
    if n == 0 {
        Seq::empty()
    } else {
        let before = lemma_group_tops(images, roots, (n - 1) as nat);
        let tops = if members(roots, n - 1, roots.len()).len() >= 2 {
            before.push(n - 1)
        } else {
            before
        };
        assert forall|top: int| 0 <= top < n && #[trigger] members(
            roots,
            top,
            roots.len(),
        ).len() >= 2 implies tops.contains(top) by {
            if top == n - 1 {
                assert(tops[tops.len() - 1] == top);
            } else {
                let g = choose|g: int| 0 <= g < before.len() && before[g] == top;
                assert(tops[g] == top);
            }
        }
        tops
    }
}

/// An image without a hash belongs to no group.
pub proof fn law_image_without_hash_is_ungrouped(
    images: Seq<RecordView>,
    roots: Seq<usize>,
    i: int,
)
    requires
        are_components(hashes_of(images), roots),
        0 <= i < images.len(),
        images[i].perceptual_hash is None,
    ensures
        members(roots, roots[i] as int, roots.len()) == seq![i],
{
    let hashes = hashes_of(images);
    let listed = members(roots, roots[i] as int, roots.len());
    lemma_members(roots, roots[i] as int, roots.len());
    assert forall|j: int| 0 <= j < images.len() && connected(hashes, i, j) implies i == j by {
        let chain = choose|chain: Seq<int>| #[trigger]
            is_chain(hashes, chain) && chain[0] == i && chain.last() == j;
        if chain.len() > 1 {
            assert(alike(hashes, chain[0], chain[1]));
        }
    }
    assert(listed.contains(i));
    assert forall|k: int| 0 <= k < listed.len() implies listed[k] == i by {
        assert(roots[listed[k]] == roots[i]);
        assert(connected(hashes, i, listed[k]));
    }
    if listed.len() > 1 {
        assert(listed[0] < listed[1]);
    }
    assert(listed =~= seq![i]);
}

/// Two images with one hash look alike, unless too many images share each of its bands.
pub proof fn law_equal_hashes_are_alike(hashes: Seq<Option<u64>>, i: int, j: int, band: u64)
    requires
        0 <= i < hashes.len(),
        0 <= j < hashes.len(),
        i != j,
        hashes[i] is Some,
        hashes[i] == hashes[j],
        band < 4,
        bucket_size(hashes, band, band_of(hashes[i]->0, band)) <= BUCKET_LIMIT,
    ensures
        alike(hashes, i, j),
{
    let hash = hashes[i]->0;
    assert(hash ^ hash == 0) by (bit_vector);
    assert(share_band(hashes, i, j, band));
}

/// Two hashes that differ in three bits at most have a band in common. So comparing images
/// band by band misses no such pair, unless too many images share the band.
pub proof fn law_few_differences_share_a_band(left: u64, right: u64) -> (band: u64)
    requires
        ones(left ^ right) <= 3,
    ensures
        band < 4,
        band_of(left, band) == band_of(right, band),
{
    let difference = left ^ right;
    lemma_ones_by_bands(difference);
    if band_of(left, 0) == band_of(right, 0) {
        0
    } else if band_of(left, 1) == band_of(right, 1) {
        1
    } else if band_of(left, 2) == band_of(right, 2) {
        2
    } else {
        if band_of(left, 3) != band_of(right, 3) {
            lemma_differing_band(left, right, 0);
            lemma_differing_band(left, right, 1);
            lemma_differing_band(left, right, 2);
            lemma_differing_band(left, right, 3);
        }
        3
    }
}

/// Two images whose hashes differ in three bits at most are found to look alike, unless too
/// many images share one of their bands.
pub proof fn law_near_copies_are_alike(hashes: Seq<Option<u64>>, i: int, j: int)
    requires
        0 <= i < hashes.len(),
        0 <= j < hashes.len(),
        i != j,
        hashes[i] is Some,
        hashes[j] is Some,
        ones(hashes[i]->0 ^ hashes[j]->0) <= 3,
        forall|band: u64|
            band < 4 ==> bucket_size(hashes, band, #[trigger] band_of(hashes[i]->0, band))
                <= BUCKET_LIMIT,
    ensures
        alike(hashes, i, j),
{
    let band = law_few_differences_share_a_band(hashes[i]->0, hashes[j]->0);
    assert(share_band(hashes, i, j, band));
}

/// Where a band differs, the difference of the hashes has a bit set in it.
proof fn lemma_differing_band(left: u64, right: u64, band: u64)
    requires
        band < 4,
        band_of(left, band) != band_of(right, band),
    ensures
        ones(band_of(left ^ right, band)) >= 1,
{
    let shift = (band * 16) as u64;
    assert(((left ^ right) >> shift) & 0xffff != 0) by (bit_vector)
        requires
            (left >> shift) & 0xffff != (right >> shift) & 0xffff,
    ;
    lemma_some_ones(band_of(left ^ right, band));
}

/// A number other than zero has a bit set.
proof fn lemma_some_ones(bits: u64)
    requires
        bits != 0,
    ensures
        ones(bits) >= 1,
    decreases bits,
{
    if bits % 2 == 0 {
        lemma_some_ones(bits / 2);
    }
}

/// The bits set in a hash are those set in its bands.
proof fn lemma_ones_by_bands(hash: u64)
    ensures
        ones(hash) == ones(band_of(hash, 0)) + ones(band_of(hash, 1)) + ones(band_of(hash, 2))
            + ones(band_of(hash, 3)),
{
    lemma_ones_split(hash, 16);
    lemma_ones_split(hash >> 16, 16);
    lemma_ones_split((hash >> 16) >> 16, 16);
    assert((1u64 << 16) - 1 == 0xffff) by (bit_vector);
    assert(hash >> 0u64 == hash && (hash >> 16) >> 16 == hash >> 32 && ((hash >> 16) >> 16) >> 16
        == (hash >> 48) & 0xffff) by (bit_vector);
}

/// The bits set in a number are those set in its lower and in its upper part.
proof fn lemma_ones_split(bits: u64, k: u64)
    requires
        k <= 16,
    ensures
        ones(bits) == ones(bits & (((1u64 << k) - 1) as u64)) + ones(bits >> k),
    decreases k,
{
    let low = bits & (((1u64 << k) - 1) as u64);
    if k == 0 {
        assert(bits & (((1u64 << 0u64) - 1) as u64) == 0 && bits >> 0u64 == bits) by (bit_vector);
    } else {
        let half = bits / 2;
        let less = (k - 1) as u64;
        lemma_ones_split(half, less);
        let half_low = half & (((1u64 << less) - 1) as u64);
        assert(low % 2 == bits % 2 && low / 2 == half_low && bits >> k == half >> less)
            by (bit_vector)
            requires
                1 <= k <= 16,
                less == k - 1,
                half == bits / 2,
                low == bits & (((1u64 << k) - 1) as u64),
                half_low == half & (((1u64 << less) - 1) as u64),
        ;
    }
}

/// Whether a list is another one in a different order: `places` says where each entry stood
/// before, and `back` where each has gone.
pub open spec fn is_reordering<A>(
    before: Seq<A>,
    after: Seq<A>,
    places: Seq<int>,
    back: Seq<int>,
) -> bool {
    &&& before.len() == after.len() == places.len() == back.len()
    &&& forall|k: int|
        0 <= k < places.len() ==> 0 <= (#[trigger] places[k]) < before.len() && back[places[k]] == k
            && after[k] == before[places[k]]
    &&& forall|i: int|
        0 <= i < back.len() ==> 0 <= (#[trigger] back[i]) < before.len() && places[back[i]] == i
}

/// A reordering can be undone.
proof fn lemma_reordering_back<A>(before: Seq<A>, after: Seq<A>, places: Seq<int>, back: Seq<int>)
    requires
        is_reordering(before, after, places, back),
    ensures
        is_reordering(after, before, back, places),
{
    assert forall|i: int| 0 <= i < back.len() implies 0 <= (#[trigger] back[i]) < before.len()
        && places[back[i]] == i && before[i] == after[back[i]] by {
        assert(after[back[i]] == before[places[back[i]]]);
    }
}

/// The places of the images in a bucket, among the first `n`.
spec fn bucket_places(hashes: Seq<Option<u64>>, band: u64, key: u64, n: int) -> Set<int> {
    Set::new(|i: int| 0 <= i < n && in_bucket(hashes[i], band, key))
}

/// A bucket is as large as the set of its places.
proof fn lemma_bucket_places(hashes: Seq<Option<u64>>, band: u64, key: u64, n: int)
    requires
        0 <= n <= hashes.len(),
    ensures
        bucket_places(hashes, band, key, n).finite(),
        bucket_places(hashes, band, key, n).len() == hashes.take(n).filter(
            |hash: Option<u64>| in_bucket(hash, band, key),
        ).len(),
    decreases n,
{
    reveal(Seq::filter);
    let all = bucket_places(hashes, band, key, n);
    if n == 0 {
        assert(all =~= Set::empty());
        assert(hashes.take(0) =~= Seq::empty());
    } else {
        lemma_bucket_places(hashes, band, key, n - 1);
        let shorter = bucket_places(hashes, band, key, n - 1);
        assert(hashes.take(n).drop_last() =~= hashes.take(n - 1));
        if in_bucket(hashes[n - 1], band, key) {
            assert(all =~= shorter.insert(n - 1));
        } else {
            assert(all =~= shorter);
        }
    }
}

/// A set that is mapped into another one entry by entry is no larger.
proof fn lemma_mapped_within(small: Set<int>, large: Set<int>, places: Seq<int>)
    requires
        small.finite(),
        large.finite(),
        forall|i: int| small.contains(i) ==> large.contains(#[trigger] places[i]),
        forall|i: int, j: int|
            small.contains(i) && small.contains(j) && #[trigger] places[i] == #[trigger] places[j]
                ==> i == j,
    ensures
        small.len() <= large.len(),
    decreases small.len(),
{
    if small.len() > 0 {
        let i = small.choose();
        assert(large.contains(places[i]));
        lemma_mapped_within(small.remove(i), large.remove(places[i]), places);
    }
}

/// Reordering leaves the buckets as large as they were.
proof fn lemma_bucket_reordered(
    before: Seq<Option<u64>>,
    after: Seq<Option<u64>>,
    places: Seq<int>,
    back: Seq<int>,
    band: u64,
    key: u64,
)
    requires
        is_reordering(before, after, places, back),
    ensures
        bucket_size(after, band, key) == bucket_size(before, band, key),
{
    let n = before.len() as int;
    lemma_bucket_places(before, band, key, n);
    lemma_bucket_places(after, band, key, n);
    assert(before.take(n) =~= before);
    assert(after.take(n) =~= after);
    lemma_reordering_back(before, after, places, back);
    let first = bucket_places(before, band, key, n);
    let second = bucket_places(after, band, key, n);
    assert forall|i: int, j: int|
        second.contains(i) && second.contains(j) && #[trigger] places[i]
            == #[trigger] places[j] implies i == j by {
        assert(back[places[i]] == i && back[places[j]] == j);
    }
    lemma_mapped_within(second, first, places);
    assert forall|i: int, j: int|
        first.contains(i) && first.contains(j) && #[trigger] back[i]
            == #[trigger] back[j] implies i == j by {
        assert(places[back[i]] == i && places[back[j]] == j);
    }
    lemma_mapped_within(first, second, back);
}

/// Images that look alike still do after reordering.
proof fn lemma_alike_reordered(
    before: Seq<Option<u64>>,
    after: Seq<Option<u64>>,
    places: Seq<int>,
    back: Seq<int>,
    i: int,
    j: int,
)
    requires
        is_reordering(before, after, places, back),
        alike(after, i, j),
    ensures
        alike(before, places[i], places[j]),
{
    let band = choose|band: u64| band < 4 && #[trigger] share_band(after, i, j, band);
    assert(after[i] == before[places[i]] && after[j] == before[places[j]]);
    assert(back[places[i]] == i && back[places[j]] == j);
    lemma_bucket_reordered(before, after, places, back, band, band_of(after[i]->0, band));
    assert(share_band(before, places[i], places[j], band));
}

/// Images that are connected still are after reordering.
proof fn lemma_connected_reordered(
    before: Seq<Option<u64>>,
    after: Seq<Option<u64>>,
    places: Seq<int>,
    back: Seq<int>,
    i: int,
    j: int,
)
    requires
        is_reordering(before, after, places, back),
        connected(after, i, j),
    ensures
        connected(before, places[i], places[j]),
{
    let chain = choose|chain: Seq<int>| #[trigger]
        is_chain(after, chain) && chain[0] == i && chain.last() == j;
    let moved = chain.map_values(|k: int| places[k]);
    assert forall|k: int| 0 <= k < moved.len() implies 0 <= (#[trigger] moved[k])
        < before.len() by {
        assert(0 <= chain[k] < after.len());
        assert(moved[k] == places[chain[k]]);
    }
    assert forall|k: int| 0 <= k < moved.len() - 1 implies alike(
        before,
        #[trigger] moved[k],
        moved[k + 1],
    ) by {
        assert(alike(after, chain[k], chain[k + 1]));
        lemma_alike_reordered(before, after, places, back, chain[k], chain[k + 1]);
    }
    assert(is_chain(before, moved));
}

/// Which images are connected does not depend on their order.
pub proof fn law_connection_is_independent_of_order(
    before: Seq<Option<u64>>,
    after: Seq<Option<u64>>,
    places: Seq<int>,
    back: Seq<int>,
    i: int,
    j: int,
)
    requires
        is_reordering(before, after, places, back),
        0 <= i < after.len(),
        0 <= j < after.len(),
    ensures
        connected(after, i, j) <==> connected(before, places[i], places[j]),
{
    if connected(after, i, j) {
        lemma_connected_reordered(before, after, places, back, i, j);
    }
    if connected(before, places[i], places[j]) {
        lemma_reordering_back(before, after, places, back);
        assert(back[places[i]] == i && back[places[j]] == j);
        lemma_connected_reordered(after, before, back, places, places[i], places[j]);
    }
}

/// Whichever order the images come in, the same ones are grouped: for each group of the one
/// order there is a group of the other that shows the same images.
pub proof fn law_groups_are_independent_of_order(
    before: Seq<RecordView>,
    after: Seq<RecordView>,
    places: Seq<int>,
    back: Seq<int>,
    groups: Seq<GroupView>,
    others: Seq<GroupView>,
    g: int,
)
    requires
        is_reordering(before, after, places, back),
        are_similar_groups(before, groups),
        are_similar_groups(after, others),
        0 <= g < groups.len(),
    ensures
        exists|h: int|
            0 <= h < others.len() && (#[trigger] others[h]).items.to_set()
                == groups[g].items.to_set(),
{
    let first = hashes_of(before);
    let second = hashes_of(after);
    assert(is_reordering(first, second, places, back)) by {
        assert forall|k: int| 0 <= k < places.len() implies 0 <= (#[trigger] places[k])
            < first.len() && back[places[k]] == k && second[k] == first[places[k]] by {
            assert(after[k] == before[places[k]]);
        }
    }
    let roots = choose|roots: Seq<usize>| #[trigger]
        are_components(first, roots) && groups == similar_groups(before, roots, before.len());
    let other_roots = choose|roots: Seq<usize>| #[trigger]
        are_components(second, roots) && others == similar_groups(after, roots, after.len());
    let tops = lemma_group_tops(before, roots, before.len());
    let top = tops[g];
    let listed = members(roots, top, roots.len());
    lemma_members(roots, top, roots.len());
    let i = listed[0];
    assert(listed[0] < listed[1]);
    let other_top = other_roots[back[i]] as int;
    let other_listed = members(other_roots, other_top, other_roots.len());
    lemma_members(other_roots, other_top, other_roots.len());
    assert forall|k: int| 0 <= k < after.len() implies (other_roots[k] == other_top
        <==> #[trigger] roots[places[k]] == top) by {
        assert(places[back[i]] == i);
        law_connection_is_independent_of_order(first, second, places, back, k, back[i]);
        assert(0 <= places[k] < before.len());
        assert(roots[i] == top);
        assert(roots[places[k]] == roots[i] <==> connected(first, places[k], i));
        assert(other_roots[k] == other_roots[back[i]] <==> connected(second, k, back[i]));
    }
    let m = listed[1];
    assert(roots[places[back[i]]] == top && roots[places[back[m]]] == top);
    assert(places[back[i]] == i && places[back[m]] == m);
    assert(other_roots[back[i]] == other_top && other_roots[back[m]] == other_top);
    assert(other_listed.contains(back[i]) && other_listed.contains(back[m]));
    let a = choose|a: int| 0 <= a < other_listed.len() && other_listed[a] == back[i];
    let b = choose|b: int| 0 <= b < other_listed.len() && other_listed[b] == back[m];
    assert(a != b);
    lemma_groups_listed(after, other_roots, after.len());
    let other = similar_group(after, other_roots, other_top);
    let group = similar_group(before, roots, top);
    assert(others.contains(other));
    let h = choose|h: int| 0 <= h < others.len() && others[h] == other;
    assert forall|item: ItemView| group.items.to_set().contains(item) implies #[trigger]
        other.items.to_set().contains(item) by {
        let k = choose|k: int| 0 <= k < group.items.len() && group.items[k] == item;
        let place = listed[k];
        assert(roots[place] == top);
        assert(places[back[place]] == place);
        assert(roots[places[back[place]]] == top);
        assert(other_roots[back[place]] == other_top);
        assert(other_listed.contains(back[place]));
        let n = choose|n: int| 0 <= n < other_listed.len() && other_listed[n] == back[place];
        assert(after[back[place]] == before[places[back[place]]]);
        assert(other.items[n] == item);
    }
    assert forall|item: ItemView| other.items.to_set().contains(item) implies #[trigger]
        group.items.to_set().contains(item) by {
        let k = choose|k: int| 0 <= k < other.items.len() && other.items[k] == item;
        let place = other_listed[k];
        assert(other_roots[place] == other_top);
        assert(roots[places[place]] == top);
        assert(listed.contains(places[place]));
        let n = choose|n: int| 0 <= n < listed.len() && listed[n] == places[place];
        assert(after[place] == before[places[place]]);
        assert(group.items[n] == item);
    }
    assert(other.items.to_set() =~= group.items.to_set());
    assert(groups[g] == group);
}

/// The bits that are set, bit by bit.
pub proof fn law_ones_bit_by_bit(bits: u64)
    ensures
        ones(0) == 0,
        ones(1) == 1,
        bits < 0x8000_0000_0000_0000 ==> ones((2 * bits) as u64) == ones(bits) && ones(
            (2 * bits + 1) as u64,
        ) == ones(bits) + 1,
{
    assert(ones(1) == 1 + ones(0));
    if bits < 0x8000_0000_0000_0000 {
        let even = (2 * bits) as u64;
        let odd = (2 * bits + 1) as u64;
        assert(even / 2 == bits && even % 2 == 0);
        assert(odd / 2 == bits && odd % 2 == 1);
    }
}

/// How many images have a hash with the same 16 bits from a bit on as a given one.
pub open spec fn sharing(hashes: Seq<Option<u64>>, hash: u64, shift: u64) -> nat {
    hashes.filter(
        |other: Option<u64>|
            other is Some && (other->0 >> shift) & 0xffff == (hash >> shift) & 0xffff,
    ).len()
}

/// Which images look alike: two different ones whose hashes differ in ten bits at most, and
/// agree in one of their four quarters, which no more than 500 images share.
pub proof fn law_alike_images(hashes: Seq<Option<u64>>, i: int, j: int)
    ensures
        alike(hashes, i, j) <==> {
            let left = hashes[i]->0;
            let right = hashes[j]->0;
            &&& 0 <= i < hashes.len()
            &&& 0 <= j < hashes.len()
            &&& i != j
            &&& hashes[i] is Some
            &&& hashes[j] is Some
            &&& ones(left ^ right) <= 10
            &&& {
                ||| (left >> 0u64) & 0xffff == (right >> 0u64) & 0xffff && sharing(
                    hashes,
                    left,
                    0,
                ) <= 500
                ||| (left >> 16u64) & 0xffff == (right >> 16u64) & 0xffff && sharing(
                    hashes,
                    left,
                    16,
                ) <= 500
                ||| (left >> 32u64) & 0xffff == (right >> 32u64) & 0xffff && sharing(
                    hashes,
                    left,
                    32,
                ) <= 500
                ||| (left >> 48u64) & 0xffff == (right >> 48u64) & 0xffff && sharing(
                    hashes,
                    left,
                    48,
                ) <= 500
            }
        },
{
    if 0 <= i < hashes.len() && 0 <= j < hashes.len() && hashes[i] is Some && hashes[j] is Some {
        lemma_sharing(hashes, hashes[i]->0, 0);
        lemma_sharing(hashes, hashes[i]->0, 1);
        lemma_sharing(hashes, hashes[i]->0, 2);
        lemma_sharing(hashes, hashes[i]->0, 3);
        let left = hashes[i]->0;
        let right = hashes[j]->0;
        assert(share_band(hashes, i, j, 0) <==> (left >> 0u64) & 0xffff == (right >> 0u64) & 0xffff
            && sharing(hashes, left, 0) <= 500);
        assert(share_band(hashes, i, j, 1) <==> (left >> 16u64) & 0xffff == (right >> 16u64)
            & 0xffff && sharing(hashes, left, 16) <= 500);
        assert(share_band(hashes, i, j, 2) <==> (left >> 32u64) & 0xffff == (right >> 32u64)
            & 0xffff && sharing(hashes, left, 32) <= 500);
        assert(share_band(hashes, i, j, 3) <==> (left >> 48u64) & 0xffff == (right >> 48u64)
            & 0xffff && sharing(hashes, left, 48) <= 500);
        if alike(hashes, i, j) {
            let band = choose|band: u64| band < 4 && #[trigger] share_band(hashes, i, j, band);
            assert(band == 0 || band == 1 || band == 2 || band == 3);
        }
    }
}

proof fn lemma_sharing(hashes: Seq<Option<u64>>, hash: u64, band: u64)
    requires
        band < 4,
    ensures
        band_of(hash, band) == (hash >> ((band * 16) as u64)) & 0xffff,
        bucket_size(hashes, band, band_of(hash, band)) == sharing(
            hashes,
            hash,
            (band * 16) as u64,
        ),
{
    let shift = (band * 16) as u64;
    let key = band_of(hash, band);
    lemma_filter_same(
        hashes,
        |other: Option<u64>| in_bucket(other, band, key),
        |other: Option<u64>|
            other is Some && (other->0 >> shift) & 0xffff == (hash >> shift) & 0xffff,
    );
}

/// How many images share 16 bits of a hash, image by image.
pub proof fn law_sharing_image_by_image(
    hashes: Seq<Option<u64>>,
    other: Option<u64>,
    hash: u64,
    shift: u64,
)
    ensures
        sharing(Seq::empty(), hash, shift) == 0,
        sharing(hashes.push(other), hash, shift) == sharing(hashes, hash, shift) + if other is Some
            && (other->0 >> shift) & 0xffff == (hash >> shift) & 0xffff {
            1nat
        } else {
            0nat
        },
{
    reveal(Seq::filter);
    assert(hashes.push(other).drop_last() =~= hashes);
}

/// Every image is connected with itself and with those that look like it.
pub proof fn law_alike_images_are_connected(hashes: Seq<Option<u64>>, i: int, j: int)
    ensures
        0 <= i < hashes.len() ==> connected(hashes, i, i),
        alike(hashes, i, j) ==> connected(hashes, i, j),
{
    if 0 <= i < hashes.len() {
        lemma_connected_self(hashes, i);
    }
    if alike(hashes, i, j) {
        lemma_connected_pair(hashes, i, j);
    }
}

/// Images are connected only where likeness leads from one to the other: every relation that
/// holds of each image with itself, of images that look alike, and passes on, holds of them.
pub proof fn law_connection_is_no_wider_than_likeness(
    hashes: Seq<Option<u64>>,
    related: spec_fn(int, int) -> bool,
    i: int,
    j: int,
)
    requires
        forall|a: int| 0 <= a < hashes.len() ==> #[trigger] related(a, a),
        forall|a: int, b: int| #[trigger] alike(hashes, a, b) ==> related(a, b),
        forall|a: int, b: int, c: int| #[trigger]
            related(a, b) && #[trigger] related(b, c) ==> related(a, c),
        connected(hashes, i, j),
    ensures
        related(i, j),
{
    let chain = choose|chain: Seq<int>| #[trigger]
        is_chain(hashes, chain) && chain[0] == i && chain.last() == j;
    lemma_related_along(hashes, related, chain, chain.len() - 1);
}

proof fn lemma_related_along(
    hashes: Seq<Option<u64>>,
    related: spec_fn(int, int) -> bool,
    chain: Seq<int>,
    k: int,
)
    requires
        forall|a: int| 0 <= a < hashes.len() ==> #[trigger] related(a, a),
        forall|a: int, b: int| #[trigger] alike(hashes, a, b) ==> related(a, b),
        forall|a: int, b: int, c: int| #[trigger]
            related(a, b) && #[trigger] related(b, c) ==> related(a, c),
        is_chain(hashes, chain),
        0 <= k < chain.len(),
    ensures
        related(chain[0], chain[k]),
    decreases k,
{
    if k == 0 {
        assert(0 <= chain[0] < hashes.len());
    } else {
        lemma_related_along(hashes, related, chain, k - 1);
        assert(alike(hashes, chain[k - 1], chain[k - 1 + 1]));
        assert(related(chain[k - 1], chain[k]));
    }
}

/// A table of entries for images has the same entry for two images exactly if they are
/// connected, and the entry is one of them.
pub proof fn law_entries_of_connected_images(
    hashes: Seq<Option<u64>>,
    roots: Seq<usize>,
    i: int,
    j: int,
)
    requires
        are_components(hashes, roots),
        0 <= i < hashes.len(),
        0 <= j < hashes.len(),
    ensures
        roots.len() == hashes.len(),
        roots[i] == roots[j] <==> connected(hashes, i, j),
        roots[i] < hashes.len(),
        connected(hashes, i, roots[i] as int),
{
    assert(roots[roots[i] as int] == roots[i]);
    assert(roots[i] == roots[roots[i] as int] <==> connected(hashes, i, roots[i] as int));
}

/// The groups of a table of entries: one for each entry that two images at least have, in the
/// order of the entries, with all the images that have it, in order.
pub proof fn law_groups_of_a_table(images: Seq<RecordView>, roots: Seq<usize>) -> (found: (
    Seq<int>,
    Seq<Seq<int>>,
))
    requires
        roots.len() == images.len(),
    ensures
        found.0.len() == similar_groups(images, roots, images.len()).len() == found.1.len(),
        forall|g: int, h: int| 0 <= g < h < found.0.len() ==> found.0[g] < found.0[h],
        forall|g: int|
            0 <= g < found.0.len() ==> 0 <= (#[trigger] found.0[g]) < images.len() && similar_groups(
                images,
                roots,
                images.len(),
            )[g].id == "similar-"@ + decimal(found.0[g] as nat) && similar_groups(
                images,
                roots,
                images.len(),
            )[g].title == "見た目が近い画像"@,
        forall|g: int|
            0 <= g < found.1.len() ==> (#[trigger] found.1[g]).len() >= 2 && similar_groups(
                images,
                roots,
                images.len(),
            )[g].items == found.1[g].map_values(|i: int| item_of(images[i])),
        forall|g: int, i: int|
            0 <= g < found.1.len() ==> (#[trigger] found.1[g].contains(i) <==> 0 <= i < images.len()
                && roots[i] == found.0[g]),
        forall|g: int, k: int, m: int|
            0 <= g < found.1.len() && 0 <= k < m < found.1[g].len() ==> (#[trigger] found.1[g][k])
                < (#[trigger] found.1[g][m]),
        forall|i: int, j: int|
            0 <= i < j < images.len() && (#[trigger] roots[i]) == (#[trigger] roots[j]) && roots[i]
                < images.len() ==> found.0.contains(roots[i] as int),
{
    let groups = similar_groups(images, roots, images.len());
    let tops = lemma_group_tops(images, roots, images.len());
    let places = Seq::new(tops.len(), |g: int| members(roots, tops[g], roots.len()));
    assert forall|g: int| 0 <= g < tops.len() implies 0 <= (#[trigger] tops[g]) < images.len()
        && groups[g].id == "similar-"@ + decimal(tops[g] as nat) && groups[g].title
        == "見た目が近い画像"@ by {
        assert(groups[g] == similar_group(images, roots, tops[g]));
    }
    assert forall|g: int| 0 <= g < places.len() implies (#[trigger] places[g]).len() >= 2
        && groups[g].items == places[g].map_values(|i: int| item_of(images[i])) by {
        assert(groups[g] == similar_group(images, roots, tops[g]));
    }
    assert forall|g: int, i: int| 0 <= g < places.len() implies (#[trigger] places[g].contains(i)
        <==> 0 <= i < images.len() && roots[i] == tops[g]) by {
        lemma_members(roots, tops[g], roots.len());
    }
    assert forall|g: int, k: int, m: int|
        0 <= g < places.len() && 0 <= k < m < places[g].len() implies (#[trigger] places[g][k]) < (
    #[trigger] places[g][m]) by {
        lemma_members(roots, tops[g], roots.len());
    }
    assert forall|i: int, j: int|
        0 <= i < j < images.len() && (#[trigger] roots[i]) == (#[trigger] roots[j]) && roots[i]
            < images.len() implies tops.contains(roots[i] as int) by {
        let top = roots[i] as int;
        let listed = members(roots, top, roots.len());
        lemma_members(roots, top, roots.len());
        assert(listed.contains(i) && listed.contains(j));
        let k = choose|k: int| 0 <= k < listed.len() && listed[k] == i;
        let m = choose|m: int| 0 <= m < listed.len() && listed[m] == j;
        assert(k != m);
        assert(members(roots, top, roots.len()).len() >= 2);
    }
    (tops, places)
}

/// The groups of images that look alike: a group shows all the images that are connected with
/// one of its own and no others, two at least, in order, and it is numbered by one of them.
pub proof fn law_groups_of_alike_images(images: Seq<RecordView>, groups: Seq<GroupView>) -> (
    found: (Seq<int>, Seq<Seq<int>>))
    requires
        are_similar_groups(images, groups),
    ensures
        found.0.len() == groups.len() == found.1.len(),
        forall|g: int|
            0 <= g < found.1.len() ==> (#[trigger] found.1[g]).len() >= 2 && groups[g].items
                == found.1[g].map_values(|i: int| item_of(images[i])),
        forall|g: int|
            0 <= g < found.0.len() ==> groups[g].id == "similar-"@ + decimal(
                (#[trigger] found.0[g]) as nat,
            ) && found.1[g].contains(found.0[g]),
        forall|g: int| 0 <= g < groups.len() ==> (#[trigger] groups[g]).title
            == "見た目が近い画像"@,
        forall|g: int, i: int|
            0 <= g < found.1.len() ==> (#[trigger] found.1[g].contains(i) <==> 0 <= i < images.len()
                && connected(hashes_of(images), found.0[g], i)),
        forall|g: int, k: int, m: int|
            0 <= g < found.1.len() && 0 <= k < m < found.1[g].len() ==> (#[trigger] found.1[g][k])
                < (#[trigger] found.1[g][m]),
{
    let hashes = hashes_of(images);
    let roots = choose|roots: Seq<usize>| #[trigger]
        are_components(hashes, roots) && groups == similar_groups(images, roots, images.len());
    let (tops, places) = law_groups_of_a_table(images, roots);
    assert forall|g: int| 0 <= g < tops.len() implies roots[#[trigger] tops[g]] == tops[g]
        && places[g].contains(tops[g]) by {
        let first = places[g][0];
        assert(places[g].contains(first));
        assert(roots[first] == tops[g]);
        assert(roots[roots[first] as int] == roots[first]);
        assert(0 <= tops[g] < images.len());
    }
    assert forall|g: int, i: int| 0 <= g < places.len() implies (#[trigger] places[g].contains(i)
        <==> 0 <= i < images.len() && connected(hashes, tops[g], i)) by {
        assert(roots[tops[g]] == tops[g]);
        if 0 <= i < images.len() {
            assert(roots[tops[g]] == roots[i] <==> connected(hashes, tops[g], i));
        }
    }
    let named = similar_groups(images, roots, images.len());
    assert forall|g: int| 0 <= g < groups.len() implies (#[trigger] groups[g]).title
        == "見た目が近い画像"@ by {
        assert(named[g].id == "similar-"@ + decimal(tops[g] as nat));
        assert(groups[g] == named[g]);
    }
    (tops, places)
}

/// Any two connected images are shown in one group. Images go by their perceptual hashes
/// alone.
pub proof fn law_connected_images_share_a_group(
    images: Seq<RecordView>,
    groups: Seq<GroupView>,
    i: int,
    j: int,
) -> (g: int)
    requires
        are_similar_groups(images, groups),
        0 <= i < images.len(),
        0 <= j < images.len(),
        i != j,
        connected(hashes_of(images), i, j),
    ensures
        0 <= g < groups.len(),
        groups[g].items.contains(item_of(images[i])),
        groups[g].items.contains(item_of(images[j])),
        hashes_of(images).len() == images.len(),
        hashes_of(images)[i] == images[i].perceptual_hash,
{
    let hashes = hashes_of(images);
    let roots = choose|roots: Seq<usize>| #[trigger]
        are_components(hashes, roots) && groups == similar_groups(images, roots, images.len());
    let (tops, places) = law_groups_of_a_table(images, roots);
    assert(roots[i] == roots[j]);
    assert(roots[i] < images.len());
    if i < j {
        assert(tops.contains(roots[i] as int));
    } else {
        assert(tops.contains(roots[j] as int));
    }
    let g = choose|g: int| 0 <= g < tops.len() && tops[g] == roots[i] as int;
    assert(places[g].contains(i) && places[g].contains(j));
    let k = choose|k: int| 0 <= k < places[g].len() && places[g][k] == i;
    let m = choose|m: int| 0 <= m < places[g].len() && places[g][m] == j;
    assert(groups[g].items[k] == item_of(images[i]));
    assert(groups[g].items[m] == item_of(images[j]));
    g
}

/// Images are compared by their perceptual hashes, one by one.
pub proof fn law_hashes_of_images(images: Seq<RecordView>)
    ensures
        hashes_of(images).len() == images.len(),
        forall|i: int|
            0 <= i < images.len() ==> (#[trigger] hashes_of(images)[i])
                == images[i].perceptual_hash,
{
}

} // verus!

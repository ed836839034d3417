//! Images with the same content: found by size first, then by hash.
use sha2::{Digest, Sha256};
use std::collections::HashMap;

use vstd::hash_map::StringHashMap;
use vstd::hash_set::StringHashSet;
use vstd::prelude::*;
use vstd::string::*;
use vstd::utf8::*;

use crate::errors::ScanError;
use crate::numbers::{
    hex_bytes, hex_of_bytes, is_digit, law_hex_bytes_keeps_bytes_apart, law_hex_bytes_shape,
};
use crate::record::{
    group_views, item_of, items_of, record_views, CacheRecord, GroupView, ImageGroup, ImageItem,
    ItemView, RecordView,
};
use crate::text::text_views;

verus! {

/// What SHA-256 makes of some bytes.
pub uninterp spec fn sha256_digest(content: Seq<u8>) -> Seq<u8>;

/// `Sha256::update` and `Sha256::finalize` of the `sha2` crate give the digest of some
/// bytes, 32 bytes long.
#[verifier::external_body]
fn sha256(content: &[u8]) -> (digest: Vec<u8>)
    ensures
        digest@ == sha256_digest(content@),
        digest@.len() == 32,
{
    let mut hasher = Sha256::new();
    hasher.update(content);
    hasher.finalize().to_vec()
}

/// The bytes of a hash that stand in the identifier of a group.
pub const LABEL_BYTES: usize = 12;

/// The outcome of reading and hashing one file.
#[derive(Debug)]
pub enum HashOutcome {
    /// The file at this path has this hash.
    Hashed { path: String, hash: String },
    /// The scan was cancelled before the file was read.
    Cancelled,
    /// The file could not be read.
    Failed,
}

/// The number of records with a size.
pub open spec fn size_count(records: Seq<RecordView>, size: u64) -> nat {
    records.filter(|record: RecordView| record.size_bytes == size).len()
}

/// Whether a record needs a hash: it has none, and another record has the same size.
pub open spec fn needs_hash(records: Seq<RecordView>, i: int) -> bool {
    records[i].content_hash.len() == 0 && size_count(records, records[i].size_bytes) > 1
}

/// The first `n` records that need a hash, in order.
pub open spec fn needing_hash(records: Seq<RecordView>, n: nat) -> Seq<int>
    decreases n,
{
    if n == 0 {
        Seq::empty()
    } else if needs_hash(records, n - 1) {
        needing_hash(records, (n - 1) as nat).push(n - 1)
    } else {
        needing_hash(records, (n - 1) as nat)
    }
}

/// The last hash found for a path.
pub open spec fn hash_for(outcomes: Seq<HashOutcome>, path: Seq<char>) -> Option<Seq<char>>
    decreases outcomes.len(),
{
    if outcomes.len() == 0 {
        None
    } else {
        match outcomes.last() {
            HashOutcome::Hashed { path: found, hash } => if found@ == path {
                Some(hash@)
            } else {
                hash_for(outcomes.drop_last(), path)
            },
            _ => hash_for(outcomes.drop_last(), path),
        }
    }
}

/// A record with the hash found for its path, if one was found.
pub open spec fn with_hash(record: RecordView, outcomes: Seq<HashOutcome>) -> RecordView {
    match hash_for(outcomes, record.path) {
        Some(hash) => RecordView { content_hash: hash, ..record },
        None => record,
    }
}

/// Records with the hashes found for their paths.
pub open spec fn with_hashes(records: Seq<RecordView>, outcomes: Seq<HashOutcome>) -> Seq<
    RecordView,
> {
    records.map_values(|record: RecordView| with_hash(record, outcomes))
}

/// Whether hashing was cancelled.
pub open spec fn hashing_cancelled(outcomes: Seq<HashOutcome>) -> bool {
    exists|i: int| 0 <= i < outcomes.len() && (#[trigger] outcomes[i]) is Cancelled
}

/// The hashes of records, each once, in the order in which they come first. No hash is none.
pub open spec fn distinct_hashes(records: Seq<RecordView>) -> Seq<Seq<char>>
    decreases records.len(),
{
    if records.len() == 0 {
        Seq::empty()
    } else {
        let before = distinct_hashes(records.drop_last());
        let hash = records.last().content_hash;
        if hash.len() == 0 || before.contains(hash) {
            before
        } else {
            before.push(hash)
        }
    }
}

/// The records with a hash, in order.
pub open spec fn with_same_hash(records: Seq<RecordView>, hash: Seq<char>) -> Seq<RecordView> {
    records.filter(|record: RecordView| record.content_hash == hash)
}

/// Whether the identifier of a group can be made from a hash: its first twelve bytes are
/// whole characters.
pub open spec fn has_label(hash: Seq<char>) -> bool {
    is_char_boundary(encode_utf8(hash), LABEL_BYTES as int)
}

/// The part of a hash that stands in the identifier of a group.
pub open spec fn label(hash: Seq<char>) -> Seq<char> {
    decode_utf8(encode_utf8(hash).subrange(0, LABEL_BYTES as int))
}

/// The group of the records with a hash.
pub open spec fn exact_group(records: Seq<RecordView>, hash: Seq<char>) -> GroupView {
    GroupView {
        id: "exact-"@ + label(hash),
        title: "同じ内容の画像"@,
        items: items_of(with_same_hash(records, hash)),
    }
}

/// The groups of the records with each of some hashes, those of one record left out.
pub open spec fn groups_of_hashes(
    records: Seq<RecordView>,
    hashes: Seq<Seq<char>>,
) -> Seq<GroupView>
    decreases hashes.len(),
{
    if hashes.len() == 0 {
        Seq::empty()
    } else {
        let before = groups_of_hashes(records, hashes.drop_last());
        if with_same_hash(records, hashes.last()).len() >= 2 {
            before.push(exact_group(records, hashes.last()))
        } else {
            before
        }
    }
}

/// The groups of records with the same hash, in the order in which the hashes come first.
pub open spec fn exact_groups(records: Seq<RecordView>) -> Seq<GroupView> {
    groups_of_hashes(records, distinct_hashes(records))
}

/// Whether the identifiers of all groups can be made.
pub open spec fn labels_defined(records: Seq<RecordView>) -> bool {
    forall|hash: Seq<char>|
        #![trigger has_label(hash)]
        #![trigger with_same_hash(records, hash)]
        hash.len() > 0 && with_same_hash(records, hash).len() >= 2 ==> has_label(hash)
}

/// Whether a text is the hash of some content: its digest, in 64 hexadecimal digits.
pub open spec fn is_hash_of(hash: Seq<char>, content: Seq<u8>) -> bool {
    hash == hex_bytes(sha256_digest(content)) && hash.len() == 64
}

/// The hash of the content of a file.
pub fn hash_content(content: &[u8]) -> (hash: String)
    ensures
        is_hash_of(hash@, content@),
{
    let digest: Vec<u8> = sha256(content);
    proof {
        law_hex_bytes_shape(digest@);
    }
    hex_of_bytes(digest.as_slice())
}

/// The places of the records that need a hash, in order.
pub fn hash_targets(records: &[CacheRecord]) -> (targets: Vec<usize>)
    ensures
        targets@.map_values(|i: usize| i as int) == needing_hash(
            record_views(records@),
            records@.len(),
        ),
{
    broadcast use vstd::std_specs::hash::group_hash_axioms;

    let ghost views = record_views(records@);
    let mut counts: HashMap<u64, usize> = HashMap::new();
    let mut i: usize = 0;
    assert forall|size: u64| size_count(views.take(0), size) == 0 by {
        reveal(Seq::filter);
        assert(views.take(0) =~= Seq::empty());
    }
    while i < records.len()
        invariant
            i <= records@.len(),
            views == record_views(records@),
            forall|size: u64|
                #![trigger counts@.contains_key(size)]
                #![trigger size_count(views.take(i as int), size)]
                if counts@.contains_key(size) {
                    counts@[size] == size_count(views.take(i as int), size)
                } else {
                    size_count(views.take(i as int), size) == 0
                },
            forall|size: u64| size_count(views.take(i as int), size) <= i,
        decreases records@.len() - i,
    {
        let size: u64 = records[i].size_bytes;
        let count: usize = match counts.get(&size) {
            Some(count) => *count,
            None => 0,
        };
        assert(count == size_count(views.take(i as int), size));
        counts.insert(size, count + 1);
        proof {
            reveal(Seq::filter);
            assert(views.take(i + 1).drop_last() =~= views.take(i as int));
            assert(views.take(i + 1).last().size_bytes == size);
            assert forall|other: u64|
                size_count(views.take(i + 1), other) == size_count(views.take(i as int), other) + (
                if other == size {
                    1nat
                } else {
                    0nat
                }) by {}
        }
        i = i + 1;
    }
    assert(views.take(i as int) =~= views);
    let mut targets: Vec<usize> = Vec::new();
    let mut k: usize = 0;
    assert(targets@.map_values(|i: usize| i as int) =~= Seq::empty());
    while k < records.len()
        invariant
            k <= records@.len(),
            views == record_views(records@),
            forall|size: u64| #[trigger]
                counts@.contains_key(size) ==> counts@[size] == size_count(views, size),
            forall|size: u64|
                !(#[trigger] counts@.contains_key(size)) ==> size_count(views, size) == 0,
            targets@.map_values(|i: usize| i as int) == needing_hash(views, k as nat),
        decreases records@.len() - k,
    {
        let record: &CacheRecord = &records[k];
        if record.content_hash.as_str().is_empty() {
            let count: usize = match counts.get(&record.size_bytes) {
                Some(count) => *count,
                None => 0,
            };
            if count > 1 {
                let ghost before = targets@;
                targets.push(k);
                assert(targets@.map_values(|i: usize| i as int) =~= before.map_values(
                    |i: usize| i as int,
                ).push(k as int));
            }
        }
        k = k + 1;
    }
    targets
}

/// Whether a table holds, for every path, the last hash found for it.
spec fn holds_hashes(table: Map<Seq<char>, String>, outcomes: Seq<HashOutcome>) -> bool {
    forall|path: Seq<char>|
        #![trigger hash_for(outcomes, path)]
        #![trigger table.contains_key(path)]
        match hash_for(outcomes, path) {
            Some(hash) => table.contains_key(path) && table[path]@ == hash,
            None => !table.contains_key(path),
        }
}

/// Gives the records the hashes that were found, and says whether hashing was cancelled.
/// Hashes found before that are kept.
pub fn hash_duplicate_candidates(
    records: &mut Vec<CacheRecord>,
    outcomes: &Vec<HashOutcome>,
) -> (outcome: Result<(), ScanError>)
    ensures
        record_views(final(records)@) == with_hashes(record_views(old(records)@), outcomes@),
        outcome == if hashing_cancelled(outcomes@) {
            Err::<(), ScanError>(ScanError::Interrupted)
        } else {
            Ok(())
        },
{
    let mut table: StringHashMap<String> = StringHashMap::new();
    let mut cancelled: bool = false;
    let mut i: usize = 0;
    assert(outcomes@.take(0) =~= Seq::empty());
    while i < outcomes.len()
        invariant
            i <= outcomes@.len(),
            holds_hashes(table@, outcomes@.take(i as int)),
            cancelled <==> exists|k: int| 0 <= k < i && (#[trigger] outcomes@[k]) is Cancelled,
        decreases outcomes@.len() - i,
    {
        let ghost seen = outcomes@.take(i as int);
        let ghost next = outcomes@.take(i + 1);
        assert(next.drop_last() =~= seen);
        assert(next.last() == outcomes@[i as int]);
        match &outcomes[i] {
            HashOutcome::Hashed { path, hash } => {
                table.insert(path.clone(), hash.clone());
            },
            HashOutcome::Cancelled => {
                cancelled = true;
            },
            HashOutcome::Failed => {},
        }
        assert forall|path: Seq<char>|
            #![trigger hash_for(next, path)]
            #![trigger table@.contains_key(path)]
            match hash_for(next, path) {
                Some(hash) => table@.contains_key(path) && table@[path]@ == hash,
                None => !table@.contains_key(path),
            } by {
            assert(hash_for(seen, path) == hash_for(seen, path));
        }
        i = i + 1;
    }
    assert(outcomes@.take(i as int) =~= outcomes@);
    let ghost start = records@;
    let mut k: usize = 0;
    while k < records.len()
        invariant
            k <= records@.len(),
            records@.len() == start.len(),
            holds_hashes(table@, outcomes@),
            forall|m: int|
                0 <= m < k ==> (#[trigger] records@[m])@ == with_hash(start[m]@, outcomes@),
            forall|m: int| k <= m < records@.len() ==> (#[trigger] records@[m]) == start[m],
        decreases records@.len() - k,
    {
        let found: Option<String> = match table.get(records[k].path.as_str()) {
            Some(hash) => Some(hash.clone()),
            None => None,
        };
        assert(hash_for(outcomes@, start[k as int]@.path) is Some <==> found is Some);
        if let Some(hash) = found {
            records[k].content_hash = hash;
        }
        assert(records@[k as int]@ =~= with_hash(start[k as int]@, outcomes@));
        k = k + 1;
    }
    assert(record_views(records@) =~= with_hashes(record_views(start), outcomes@));
    if cancelled {
        Err(ScanError::Interrupted)
    } else {
        Ok(())
    }
}

/// The records that stand at the given places.
spec fn records_at(records: Seq<RecordView>, places: Seq<usize>) -> Seq<RecordView> {
    places.map_values(|i: usize| records[i as int])
}

/// A hash that no record has brought yet belongs to no record.
proof fn lemma_unseen_hash(records: Seq<RecordView>, hash: Seq<char>)
    requires
        hash.len() > 0,
        !distinct_hashes(records).contains(hash),
    ensures
        with_same_hash(records, hash).len() == 0,
    decreases records.len(),
{
    reveal(Seq::filter);
    if records.len() > 0 {
        let shorter = records.drop_last();
        let before = distinct_hashes(shorter);
        let all = distinct_hashes(records);
        if before.contains(hash) {
            let k = choose|k: int| 0 <= k < before.len() && before[k] == hash;
            assert(all[k] == hash);
        }
        lemma_unseen_hash(shorter, hash);
        if records.last().content_hash == hash {
            assert(all[all.len() - 1] == hash);
        }
    }
}

/// The hashes collected are all there, each once.
proof fn lemma_distinct_hashes(records: Seq<RecordView>)
    ensures
        distinct_hashes(records).no_duplicates(),
        forall|k: int|
            0 <= k < distinct_hashes(records).len() ==> (#[trigger] distinct_hashes(
                records,
            )[k]).len() > 0,
        forall|i: int|
            0 <= i < records.len() && (#[trigger] records[i]).content_hash.len() > 0
                ==> distinct_hashes(records).contains(records[i].content_hash),
    decreases records.len(),
{
    if records.len() > 0 {
        let shorter = records.drop_last();
        lemma_distinct_hashes(shorter);
        let before = distinct_hashes(shorter);
        let all = distinct_hashes(records);
        assert forall|i: int|
            0 <= i < records.len() && (
            #[trigger] records[i]).content_hash.len() > 0 implies all.contains(
            records[i].content_hash,
        ) by {
            let hash = records[i].content_hash;
            if i < records.len() - 1 {
                assert(shorter[i] == records[i]);
                assert(before.contains(hash));
            }
            if before.contains(hash) {
                let k = choose|k: int| 0 <= k < before.len() && before[k] == hash;
                assert(all[k] == hash);
            } else {
                assert(all[all.len() - 1] == hash);
            }
        }
    }
}

/// The hashes of records, each once, and the places of the records with each.
fn by_hash(records: &[CacheRecord]) -> (found: (Vec<String>, Vec<Vec<usize>>))
    ensures
        text_views(found.0@) == distinct_hashes(record_views(records@)),
        found.1@.len() == found.0@.len(),
        forall|k: int|
            0 <= k < found.1@.len() ==> records_at(
                record_views(records@),
                (#[trigger] found.1@[k])@,
            ) == with_same_hash(record_views(records@), found.0@[k]@),
        forall|k: int, m: int|
            0 <= k < found.1@.len() && 0 <= m < found.1@[k]@.len() ==> (
            #[trigger] found.1@[k]@[m]) < records@.len(),
{
    let ghost views = record_views(records@);
    let mut hashes: Vec<String> = Vec::new();
    let mut buckets: Vec<Vec<usize>> = Vec::new();
    let mut places: StringHashMap<usize> = StringHashMap::new();
    let mut i: usize = 0;
    assert(views.take(0) =~= Seq::empty());
    assert(text_views(hashes@) =~= Seq::empty());
    while i < records.len()
        invariant
            i <= records@.len(),
            views == record_views(records@),
            text_views(hashes@) == distinct_hashes(views.take(i as int)),
            buckets@.len() == hashes@.len(),
            forall|k: int|
                0 <= k < buckets@.len() ==> records_at(views, (#[trigger] buckets@[k])@)
                    == with_same_hash(views.take(i as int), hashes@[k]@),
            forall|k: int, m: int|
                0 <= k < buckets@.len() && 0 <= m < buckets@[k]@.len() ==> (
                #[trigger] buckets@[k]@[m]) < i,
            forall|hash: Seq<char>| #[trigger]
                places@.contains_key(hash) ==> places@[hash] < hashes@.len()
                    && hashes@[places@[hash] as int]@ == hash,
            forall|k: int| 0 <= k < hashes@.len() ==> places@.contains_key((#[trigger] hashes@[k])@),
        decreases records@.len() - i,
    {
        let ghost seen = views.take(i as int);
        let ghost next = views.take(i + 1);
        let ghost record = views[i as int];
        let ghost old_buckets = buckets@;
        let ghost old_hashes = hashes@;
        proof {
            reveal(Seq::filter);
            assert(next.drop_last() =~= seen);
            assert(next.last() == record);
            lemma_distinct_hashes(seen);
            assert forall|k: int| 0 <= k < hashes@.len() implies distinct_hashes(seen)[k]
                == #[trigger] hashes@[k]@ by {
                assert(text_views(hashes@)[k] == hashes@[k]@);
            }
        }
        let hash: &String = &records[i].content_hash;
        assert(hash@ == record.content_hash);
        if !hash.as_str().is_empty() {
            let found: Option<usize> = match places.get(hash.as_str()) {
                Some(place) => Some(*place),
                None => None,
            };
            match found {
                Some(place) => {
                    buckets[place].push(i);
                    proof {
                        assert(distinct_hashes(seen)[place as int] == hash@);
                        assert(distinct_hashes(seen).contains(hash@));
                        assert forall|k: int| 0 <= k < buckets@.len() implies records_at(
                            views,
                            (#[trigger] buckets@[k])@,
                        ) == with_same_hash(next, hashes@[k]@) by {
                            assert(distinct_hashes(seen)[k] == hashes@[k]@);
                            if k == place {
                                assert(records_at(views, buckets@[k]@) =~= records_at(
                                    views,
                                    old_buckets[k]@,
                                ).push(record));
                            } else {
                                assert(buckets@[k] == old_buckets[k]);
                                assert(hashes@[k]@ != hash@);
                            }
                        }
                    }
                },
                None => {
                    let mut bucket: Vec<usize> = Vec::new();
                    bucket.push(i);
                    places.insert(hash.clone(), hashes.len());
                    hashes.push(hash.clone());
                    buckets.push(bucket);
                    proof {
                        assert(!distinct_hashes(seen).contains(hash@)) by {
                            if distinct_hashes(seen).contains(hash@) {
                                let k = choose|k: int|
                                    0 <= k < distinct_hashes(seen).len() && distinct_hashes(
                                        seen,
                                    )[k] == hash@;
                                assert(old_hashes[k]@ == hash@);
                            }
                        }
                        lemma_unseen_hash(seen, hash@);
                        assert(text_views(hashes@) =~= text_views(old_hashes).push(hash@));
                        assert forall|k: int| 0 <= k < buckets@.len() implies records_at(
                            views,
                            (#[trigger] buckets@[k])@,
                        ) == with_same_hash(next, hashes@[k]@) by {
                            if k < old_buckets.len() {
                                assert(buckets@[k] == old_buckets[k]);
                                assert(hashes@[k] == old_hashes[k]);
                                assert(hashes@[k]@ != hash@);
                            } else {
                                assert(records_at(views, buckets@[k]@) =~= seq![record]);
                                assert(with_same_hash(next, hash@) =~= seq![record]);
                            }
                        }
                    }
                },
            }
        } else {
            proof {
                assert forall|k: int| 0 <= k < buckets@.len() implies records_at(
                    views,
                    (#[trigger] buckets@[k])@,
                ) == with_same_hash(next, hashes@[k]@) by {
                    assert(distinct_hashes(seen)[k] == hashes@[k]@);
                    assert(hashes@[k]@.len() > 0);
                }
            }
        }
        i = i + 1;
    }
    assert(views.take(i as int) =~= views);
    (hashes, buckets)
}

/// Whether the identifiers of all groups can be made. Every hash that this library makes
/// gives one; a hash that was read from a cache file need not.
pub fn can_label(records: &[CacheRecord]) -> (defined: bool)
    ensures
        defined == labels_defined(record_views(records@)),
{
    let ghost views = record_views(records@);
    let (hashes, buckets): (Vec<String>, Vec<Vec<usize>>) = by_hash(records);
    let mut k: usize = 0;
    while k < hashes.len()
        invariant
            k <= hashes@.len() == buckets@.len(),
            views == record_views(records@),
            text_views(hashes@) == distinct_hashes(views),
            forall|m: int|
                0 <= m < buckets@.len() ==> records_at(views, (#[trigger] buckets@[m])@)
                    == with_same_hash(views, hashes@[m]@),
            forall|m: int|
                0 <= m < k && buckets@[m]@.len() >= 2 ==> has_label((#[trigger] hashes@[m])@),
        decreases hashes@.len() - k,
    {
        assert(records_at(views, buckets@[k as int]@).len() == buckets@[k as int]@.len());
        if buckets[k].len() >= 2 && !hashes[k].as_str().is_char_boundary(LABEL_BYTES) {
            proof {
                lemma_distinct_hashes(views);
                assert(distinct_hashes(views)[k as int] == text_views(hashes@)[k as int]);
                assert(!has_label(hashes@[k as int]@));
            }
            return false;
        }
        k = k + 1;
    }
    assert forall|hash: Seq<char>|
        #![trigger has_label(hash)]
        #![trigger with_same_hash(views, hash)]
        hash.len() > 0 && with_same_hash(views, hash).len() >= 2 implies has_label(hash) by {
        if !distinct_hashes(views).contains(hash) {
            lemma_unseen_hash(views, hash);
        }
        let m = choose|m: int|
            0 <= m < distinct_hashes(views).len() && distinct_hashes(views)[m] == hash;
        assert(text_views(hashes@)[m] == hashes@[m]@);
        assert(records_at(views, buckets@[m]@).len() == buckets@[m]@.len());
    }
    true
}

/// What is shown of the files that the records at the given places are about.
fn items_at(records: &[CacheRecord], places: &Vec<usize>) -> (items: Vec<ImageItem>)
    requires
        forall|k: int| 0 <= k < places@.len() ==> (#[trigger] places@[k]) < records@.len(),
    ensures
        items@.len() == places@.len(),
        forall|k: int|
            0 <= k < places@.len() ==> (#[trigger] items@[k])@ == item_of(
                record_views(records@)[places@[k] as int],
            ),
{
    let mut items: Vec<ImageItem> = Vec::with_capacity(places.len());
    let mut k: usize = 0;
    while k < places.len()
        invariant
            k <= places@.len(),
            forall|m: int| 0 <= m < places@.len() ==> (#[trigger] places@[m]) < records@.len(),
            items@.len() == k,
            forall|m: int|
                0 <= m < k ==> (#[trigger] items@[m])@ == item_of(
                    record_views(records@)[places@[m] as int],
                ),
        decreases places@.len() - k,
    {
        items.push(records[places[k]].item());
        k = k + 1;
    }
    items
}

/// The groups of images with the same content. A hash of which no identifier can be made
/// has no place here.
pub fn build_exact_groups(records: &[CacheRecord]) -> (groups: Vec<ImageGroup>)
    requires
        labels_defined(record_views(records@)),
    ensures
        group_views(groups@) == exact_groups(record_views(records@)),
{
    let ghost views = record_views(records@);
    let (hashes, buckets): (Vec<String>, Vec<Vec<usize>>) = by_hash(records);
    let ghost found = text_views(hashes@);
    proof {
        lemma_distinct_hashes(views);
    }
    let mut groups: Vec<ImageGroup> = Vec::new();
    let mut k: usize = 0;
    assert(group_views(groups@) =~= groups_of_hashes(views, found.take(0)));
    while k < hashes.len()
        invariant
            k <= hashes@.len() == buckets@.len(),
            views == record_views(records@),
            labels_defined(views),
            found == text_views(hashes@),
            found == distinct_hashes(views),
            forall|m: int| 0 <= m < found.len() ==> (#[trigger] found[m]).len() > 0,
            forall|m: int|
                0 <= m < buckets@.len() ==> records_at(views, (#[trigger] buckets@[m])@)
                    == with_same_hash(views, hashes@[m]@),
            forall|m: int, n: int|
                0 <= m < buckets@.len() && 0 <= n < buckets@[m]@.len() ==> (
                #[trigger] buckets@[m]@[n]) < records@.len(),
            group_views(groups@) == groups_of_hashes(views, found.take(k as int)),
        decreases hashes@.len() - k,
    {
        let ghost hash = hashes@[k as int]@;
        let ghost same = with_same_hash(views, hash);
        proof {
            assert(found[k as int] == hash);
            assert(found.take(k + 1).drop_last() =~= found.take(k as int));
            assert(found.take(k + 1).last() == hash);
            assert(records_at(views, buckets@[k as int]@) == same);
            assert(same.len() == buckets@[k as int]@.len());
        }
        if buckets[k].len() >= 2 {
            assert(has_label(hash));
            let (start, _rest): (&str, &str) = hashes[k].as_str().split_at(LABEL_BYTES);
            proof {
                encode_utf8_decode_utf8(start@);
                assert(start@ == label(hash));
            }
            let mut id: String = "exact-".to_string();
            id.append(start);
            let items: Vec<ImageItem> = items_at(records, &buckets[k]);
            let group: ImageGroup = ImageGroup {
                id,
                title: "同じ内容の画像".to_string(),
                items,
            };
            let ghost before = groups@;
            let ghost added = group@;
            proof {
                let expected = exact_group(views, hash);
                assert(added.items =~= expected.items) by {
                    assert forall|m: int| 0 <= m < added.items.len() implies added.items[m]
                        == expected.items[m] by {
                        assert(items@[m]@ == added.items[m]);
                        assert(same[m] == views[buckets@[k as int]@[m] as int]);
                    }
                }
                assert(added =~= expected);
            }
            groups.push(group);
            assert(group_views(groups@) =~= group_views(before).push(added));
        }
        k = k + 1;
    }
    assert(found.take(k as int) =~= found);
    groups
}

/// The paths of all files shown in some groups.
pub open spec fn group_paths(groups: Seq<GroupView>) -> Set<Seq<char>> {
    Set::new(
        |path: Seq<char>|
            exists|g: int, k: int|
                0 <= g < groups.len() && 0 <= k < groups[g].items.len() && (
                #[trigger] groups[g].items[k]).path == path,
    )
}

/// The paths of all files shown in some groups.
pub fn collect_group_paths(groups: &[ImageGroup]) -> (paths: StringHashSet)
    ensures
        paths@ == group_paths(group_views(groups@)),
{
    let ghost views = group_views(groups@);
    let mut paths: StringHashSet = StringHashSet::new();
    let mut g: usize = 0;
    while g < groups.len()
        invariant
            g <= groups@.len(),
            views == group_views(groups@),
            forall|path: Seq<char>| #[trigger]
                paths@.contains(path) <==> exists|h: int, k: int|
                    0 <= h < g && 0 <= k < views[h].items.len() && (
                    #[trigger] views[h].items[k]).path == path,
        decreases groups@.len() - g,
    {
        let items: &Vec<ImageItem> = &groups[g].items;
        assert(views[g as int].items.len() == items@.len());
        let mut k: usize = 0;
        while k < items.len()
            invariant
                k <= items@.len(),
                g < groups@.len(),
                items@ == groups@[g as int].items@,
                views == group_views(groups@),
                views[g as int].items.len() == items@.len(),
                forall|path: Seq<char>| #[trigger]
                    paths@.contains(path) <==> exists|h: int, m: int|
                        0 <= h <= g && 0 <= m < views[h].items.len() && (h < g || m < k) && (
                        #[trigger] views[h].items[m]).path == path,
            decreases items@.len() - k,
        {
            let ghost before = paths@;
            paths.insert(items[k].path.clone());
            assert forall|path: Seq<char>| #[trigger]
                paths@.contains(path) <==> exists|h: int, m: int|
                    0 <= h <= g && 0 <= m < views[h].items.len() && (h < g || m < k + 1) && (
                    #[trigger] views[h].items[m]).path == path by {
                assert(views[g as int].items[k as int].path == items@[k as int].path@);
                if before.contains(path) {
                    let (h, m) = choose|h: int, m: int|
                        0 <= h <= g && 0 <= m < views[h].items.len() && (h < g || m < k) && (
                        #[trigger] views[h].items[m]).path == path;
                    assert(views[h].items[m].path == path);
                }
            }
            k = k + 1;
        }
        g = g + 1;
    }
    assert(paths@ =~= group_paths(views));
    paths
}

/// Of two places that a filter keeps, both are kept.
proof fn lemma_filter_keeps_two<A>(list: Seq<A>, keep: spec_fn(A) -> bool, i: int, j: int)
    requires
        0 <= i < j < list.len(),
        keep(list[i]),
        keep(list[j]),
    ensures
        list.filter(keep).len() >= 2,
    decreases list.len(),
{
    reveal(Seq::filter);
    let shorter = list.drop_last();
    if j < list.len() - 1 {
        lemma_filter_keeps_two(shorter, keep, i, j);
    } else {
        broadcast use vstd::seq_lib::group_filter_ensures;

        assert(shorter.filter(keep).contains(shorter[i]));
    }
}

/// A file of the same size as another is read, unless its hash is known already. So no two
/// files of the same content are told apart by their sizes alone.
pub proof fn law_files_of_one_size_are_hashed(records: Seq<RecordView>, i: int, j: int)
    requires
        0 <= i < records.len(),
        0 <= j < records.len(),
        i != j,
        records[i].size_bytes == records[j].size_bytes,
        records[i].content_hash.len() == 0,
    ensures
        needing_hash(records, records.len()).contains(i),
{
    let size = records[i].size_bytes;
    let keep = |record: RecordView| record.size_bytes == size;
    if i < j {
        lemma_filter_keeps_two(records, keep, i, j);
    } else {
        lemma_filter_keeps_two(records, keep, j, i);
    }
    lemma_needing_hash(records, records.len());
    assert(needs_hash(records, i));
}

proof fn lemma_needing_hash(records: Seq<RecordView>, n: nat)
    requires
        n <= records.len(),
    ensures
        forall|i: int|
            0 <= i < n ==> (needing_hash(records, n).contains(i) <==> #[trigger] needs_hash(
                records,
                i,
            )),
        forall|k: int|
            0 <= k < needing_hash(records, n).len() ==> 0 <= (#[trigger] needing_hash(
                records,
                n,
            )[k]) < n,
    decreases n,
{
    if n > 0 {
        lemma_needing_hash(records, (n - 1) as nat);
        let all = needing_hash(records, n);
        let shorter = needing_hash(records, (n - 1) as nat);
        assert forall|i: int| 0 <= i < n implies (all.contains(i) <==> #[trigger] needs_hash(
            records,
            i,
        )) by {
            if i < n - 1 {
                if shorter.contains(i) {
                    let k = choose|k: int| 0 <= k < shorter.len() && shorter[k] == i;
                    assert(all[k] == i);
                }
                if all.contains(i) {
                    let k = choose|k: int| 0 <= k < all.len() && all[k] == i;
                    assert(shorter[k] == i);
                }
            } else if needs_hash(records, i) {
                assert(all[all.len() - 1] == i);
            } else if all.contains(i) {
                let k = choose|k: int| 0 <= k < all.len() && all[k] == i;
                assert(shorter[k] == i);
            }
        }
    }
}

/// A file that is alone with its size is never read for its hash.
pub proof fn law_file_of_unique_size_is_not_hashed(records: Seq<RecordView>, i: int)
    requires
        0 <= i < records.len(),
        size_count(records, records[i].size_bytes) <= 1,
    ensures
        !needing_hash(records, records.len()).contains(i),
{
    lemma_needing_hash(records, records.len());
    assert(!needs_hash(records, i));
}

/// A file whose hash is known is not read for it again.
pub proof fn law_hashed_file_is_not_hashed_again(records: Seq<RecordView>, i: int)
    requires
        0 <= i < records.len(),
        records[i].content_hash.len() > 0,
    ensures
        !needing_hash(records, records.len()).contains(i),
{
    lemma_needing_hash(records, records.len());
    assert(!needs_hash(records, i));
}

/// Every hash of two records at least has its group listed.
proof fn lemma_exact_groups_listed(
    records: Seq<RecordView>,
    hashes: Seq<Seq<char>>,
    hash: Seq<char>,
)
    requires
        hashes.contains(hash),
        with_same_hash(records, hash).len() >= 2,
    ensures
        groups_of_hashes(records, hashes).contains(exact_group(records, hash)),
    decreases hashes.len(),
{
    let shorter = hashes.drop_last();
    let all = groups_of_hashes(records, hashes);
    let before = groups_of_hashes(records, shorter);
    let group = exact_group(records, hash);
    if hashes.last() == hash {
        assert(all[all.len() - 1] == group);
    } else {
        let k = choose|k: int| 0 <= k < hashes.len() && hashes[k] == hash;
        assert(shorter[k] == hash);
        lemma_exact_groups_listed(records, shorter, hash);
        let g = choose|g: int| 0 <= g < before.len() && before[g] == group;
        assert(all[g] == group);
    }
}

/// Two records with the same hash are shown in one group.
pub proof fn law_same_hash_shares_a_group(records: Seq<RecordView>, i: int, j: int)
    requires
        0 <= i < records.len(),
        0 <= j < records.len(),
        i != j,
        records[i].content_hash == records[j].content_hash,
        records[i].content_hash.len() > 0,
    ensures
        exact_groups(records).contains(exact_group(records, records[i].content_hash)),
        exact_group(records, records[i].content_hash).items.contains(item_of(records[i])),
        exact_group(records, records[i].content_hash).items.contains(item_of(records[j])),
{
    let hash = records[i].content_hash;
    let keep = |record: RecordView| record.content_hash == hash;
    if i < j {
        lemma_filter_keeps_two(records, keep, i, j);
    } else {
        lemma_filter_keeps_two(records, keep, j, i);
    }
    lemma_distinct_hashes(records);
    lemma_exact_groups_listed(records, distinct_hashes(records), hash);
    let same = with_same_hash(records, hash);
    broadcast use vstd::seq_lib::group_filter_ensures;

    assert(same.contains(records[i]) && same.contains(records[j]));
    let k = choose|k: int| 0 <= k < same.len() && same[k] == records[i];
    let m = choose|m: int| 0 <= m < same.len() && same[m] == records[j];
    let items = exact_group(records, hash).items;
    assert(items[k] == item_of(records[i]));
    assert(items[m] == item_of(records[j]));
}

/// Every group holds two records at least, and all its records have one hash, which no
/// other group has.
pub proof fn law_exact_groups_are_by_hash(records: Seq<RecordView>) -> (hashes: Seq<Seq<char>>)
    ensures
        hashes.len() == exact_groups(records).len(),
        hashes.no_duplicates(),
        forall|g: int|
            0 <= g < hashes.len() ==> exact_groups(records)[g] == exact_group(
                records,
                #[trigger] hashes[g],
            ) && hashes[g].len() > 0 && exact_groups(records)[g].items.len() >= 2,
{
    lemma_distinct_hashes(records);
    lemma_group_hashes(records, distinct_hashes(records))
}

proof fn lemma_group_hashes(records: Seq<RecordView>, hashes: Seq<Seq<char>>) -> (listed: Seq<
    Seq<char>,
>)
    requires
        hashes.no_duplicates(),
        forall|k: int| 0 <= k < hashes.len() ==> (#[trigger] hashes[k]).len() > 0,
    ensures
        listed.len() == groups_of_hashes(records, hashes).len(),
        listed.no_duplicates(),
        forall|g: int|
            0 <= g < listed.len() ==> hashes.contains(#[trigger] listed[g]) && groups_of_hashes(
                records,
                hashes,
            )[g] == exact_group(records, listed[g]) && listed[g].len() > 0 && groups_of_hashes(
                records,
                hashes,
            )[g].items.len() >= 2,
    decreases hashes.len(),
{
    if hashes.len() == 0 {
        Seq::empty()
    } else {
        let shorter = hashes.drop_last();
        assert forall|k: int| 0 <= k < shorter.len() implies (#[trigger] shorter[k]).len() > 0 by {
            assert(shorter[k] == hashes[k]);
        }
        let before = lemma_group_hashes(records, shorter);
        let hash = hashes[hashes.len() - 1];
        assert forall|g: int| 0 <= g < before.len() implies hashes.contains(#[trigger] before[g])
            && before[g] != hash by {
            let k = choose|k: int| 0 <= k < shorter.len() && shorter[k] == before[g];
            assert(hashes[k] == before[g]);
        }
        if with_same_hash(records, hash).len() >= 2 {
            before.push(hash)
        } else {
            before
        }
    }
}

/// A hash in hexadecimal gives the identifier of a group: its first twelve characters. It
/// can be stored as it is.
pub proof fn law_made_hash_has_label(digest: Seq<u8>)
    requires
        digest.len() >= 6,
    ensures
        has_label(hex_bytes(digest)),
        label(hex_bytes(digest)) == hex_bytes(digest).take(LABEL_BYTES as int),
        !hex_bytes(digest).contains('\t'),
        !hex_bytes(digest).contains('\n'),
{
    let hash = hex_bytes(digest);
    law_hex_bytes_shape(digest);
    assert forall|k: int| 0 <= k < hash.len() implies (hash[k] as u32) < 128 && hash[k] != '\t'
        && hash[k] != '\n' by {
        assert(is_digit(hash[k]) || 'a' <= hash[k] <= 'f');
    }
    assert(is_ascii_chars(hash));
    is_ascii_chars_encode_utf8(hash);
    encode_utf8_valid_utf8(hash);
    let bytes = encode_utf8(hash);
    if bytes.len() == LABEL_BYTES {
        is_char_boundary_start_end_of_seq(bytes);
    } else {
        is_char_boundary_iff_not_is_continuation_byte(bytes, LABEL_BYTES as int);
    }
    let start = hash.take(LABEL_BYTES as int);
    assert(is_ascii_chars(start));
    is_ascii_chars_encode_utf8(start);
    assert(encode_utf8(start) =~= bytes.subrange(0, LABEL_BYTES as int));
    encode_utf8_decode_utf8(start);
}

/// Whether all that is said of files is true of their contents, by path: the sizes in the
/// records, the hashes that the records had before, and the hashes found. And every file that
/// needed a hash was read.
pub open spec fn is_true_of_contents(
    records: Seq<RecordView>,
    outcomes: Seq<HashOutcome>,
    contents: spec_fn(Seq<char>) -> Seq<u8>,
) -> bool {
    &&& forall|i: int|
        0 <= i < records.len() ==> (#[trigger] records[i]).size_bytes == contents(
            records[i].path,
        ).len()
    &&& forall|i: int|
        0 <= i < records.len() && (#[trigger] records[i]).content_hash.len() > 0 ==> is_hash_of(
            records[i].content_hash,
            contents(records[i].path),
        )
    &&& forall|k: int|
        0 <= k < outcomes.len() ==> ((#[trigger] outcomes[k]) matches HashOutcome::Hashed {
            path,
            hash,
        } ==> is_hash_of(hash@, contents(path@)))
    &&& forall|i: int|
        0 <= i < records.len() && #[trigger] needs_hash(records, i) ==> hash_for(
            outcomes,
            records[i].path,
        ) is Some
}

/// Whether two items are shown in one group.
pub open spec fn share_a_group(groups: Seq<GroupView>, left: ItemView, right: ItemView) -> bool {
    exists|g: int|
        0 <= g < groups.len() && (#[trigger] groups[g]).items.contains(left)
            && groups[g].items.contains(right)
}

/// A hash found for a path is that of its content.
proof fn lemma_found_hash_is_true(
    outcomes: Seq<HashOutcome>,
    contents: spec_fn(Seq<char>) -> Seq<u8>,
    path: Seq<char>,
)
    requires
        forall|k: int|
            0 <= k < outcomes.len() ==> ((#[trigger] outcomes[k]) matches HashOutcome::Hashed {
                path,
                hash,
            } ==> is_hash_of(hash@, contents(path@))),
    ensures
        hash_for(outcomes, path) matches Some(hash) ==> is_hash_of(hash, contents(path)),
    decreases outcomes.len(),
{
    if outcomes.len() > 0 {
        let shorter = outcomes.drop_last();
        assert forall|k: int| 0 <= k < shorter.len() implies ((
        #[trigger] shorter[k]) matches HashOutcome::Hashed { path, hash } ==> is_hash_of(
            hash@,
            contents(path@),
        )) by {
            assert(shorter[k] == outcomes[k]);
        }
        lemma_found_hash_is_true(shorter, contents, path);
        assert(outcomes.last() == outcomes[outcomes.len() - 1]);
    }
}

/// What a filter keeps stands in the list.
pub proof fn lemma_filter_within<A>(list: Seq<A>, keep: spec_fn(A) -> bool, k: int) -> (i: int)
    requires
        0 <= k < list.filter(keep).len(),
    ensures
        0 <= i < list.len(),
        list[i] == list.filter(keep)[k],
        keep(list[i]),
    decreases list.len(),
{
    reveal(Seq::filter);
    let last = list.len() - 1;
    let before = list.drop_last().filter(keep);
    if k < before.len() {
        lemma_filter_within(list.drop_last(), keep, k)
    } else {
        last
    }
}

/// The hash of a record whose item is shown in a group is the hash of that group.
proof fn lemma_shown_hash(
    records: Seq<RecordView>,
    outcomes: Seq<HashOutcome>,
    contents: spec_fn(Seq<char>) -> Seq<u8>,
    hash: Seq<char>,
    i: int,
)
    requires
        is_true_of_contents(records, outcomes, contents),
        0 <= i < records.len(),
        hash.len() > 0,
        exact_group(with_hashes(records, outcomes), hash).items.contains(
            item_of(with_hashes(records, outcomes)[i]),
        ),
    ensures
        is_hash_of(hash, contents(records[i].path)),
{
    let hashed = with_hashes(records, outcomes);
    let keep = |record: RecordView| record.content_hash == hash;
    let items = exact_group(hashed, hash).items;
    let k = choose|k: int| 0 <= k < items.len() && items[k] == item_of(hashed[i]);
    let same = with_same_hash(hashed, hash);
    assert(items[k] == item_of(same[k]));
    let m = lemma_filter_within(hashed, keep, k);
    assert(hashed[m].path == hashed[i].path);
    assert(hashed[m] == with_hash(records[m], outcomes));
    assert(hashed[i] == with_hash(records[i], outcomes));
    lemma_found_hash_is_true(outcomes, contents, records[m].path);
}

/// Files of the same content are shown in one group, and files of different contents are
/// not, unless their contents have one digest.
pub proof fn law_identical_files_share_a_group(
    records: Seq<RecordView>,
    outcomes: Seq<HashOutcome>,
    contents: spec_fn(Seq<char>) -> Seq<u8>,
    i: int,
    j: int,
)
    requires
        is_true_of_contents(records, outcomes, contents),
        0 <= i < records.len(),
        0 <= j < records.len(),
        i != j,
        sha256_digest(contents(records[i].path)) == sha256_digest(contents(records[j].path))
            ==> contents(records[i].path) == contents(records[j].path),
    ensures
        share_a_group(
            exact_groups(with_hashes(records, outcomes)),
            item_of(with_hashes(records, outcomes)[i]),
            item_of(with_hashes(records, outcomes)[j]),
        ) <==> contents(records[i].path) == contents(records[j].path),
{
    let hashed = with_hashes(records, outcomes);
    let groups = exact_groups(hashed);
    let left = contents(records[i].path);
    let right = contents(records[j].path);
    assert(hashed[i] == with_hash(records[i], outcomes));
    assert(hashed[j] == with_hash(records[j], outcomes));
    if left == right {
        let size = records[i].size_bytes;
        let keep = |record: RecordView| record.size_bytes == size;
        assert(records[j].size_bytes == size);
        if i < j {
            lemma_filter_keeps_two(records, keep, i, j);
        } else {
            lemma_filter_keeps_two(records, keep, j, i);
        }
        assert(records[i].content_hash.len() == 0 ==> needs_hash(records, i));
        assert(records[j].content_hash.len() == 0 ==> needs_hash(records, j));
        lemma_found_hash_is_true(outcomes, contents, records[i].path);
        lemma_found_hash_is_true(outcomes, contents, records[j].path);
        assert(is_hash_of(hashed[i].content_hash, left));
        assert(is_hash_of(hashed[j].content_hash, right));
        law_same_hash_shares_a_group(hashed, i, j);
        let group = exact_group(hashed, hashed[i].content_hash);
        let g = choose|g: int| 0 <= g < groups.len() && groups[g] == group;
        assert(groups[g].items.contains(item_of(hashed[i])));
    }
    if share_a_group(groups, item_of(hashed[i]), item_of(hashed[j])) {
        let g = choose|g: int|
            0 <= g < groups.len() && (#[trigger] groups[g]).items.contains(item_of(hashed[i]))
                && groups[g].items.contains(item_of(hashed[j]));
        let hashes = law_exact_groups_are_by_hash(hashed);
        let hash = hashes[g];
        assert(groups[g] == exact_group(hashed, hash));
        lemma_shown_hash(records, outcomes, contents, hash, i);
        lemma_shown_hash(records, outcomes, contents, hash, j);
        if sha256_digest(left) != sha256_digest(right) {
            law_hex_bytes_keeps_bytes_apart(sha256_digest(left), sha256_digest(right));
        }
    }
}

/// At most one entry that passes a test leaves at most one.
proof fn lemma_filter_keeps_one<A>(list: Seq<A>, keep: spec_fn(A) -> bool, i: int)
    requires
        forall|j: int| 0 <= j < list.len() && j != i ==> !keep(#[trigger] list[j]),
    ensures
        list.filter(keep).len() <= 1,
        !(0 <= i < list.len()) ==> list.filter(keep).len() == 0,
    decreases list.len(),
{
    reveal(Seq::filter);
    if list.len() > 0 {
        let shorter = list.drop_last();
        let last = list.len() - 1;
        assert forall|j: int| 0 <= j < shorter.len() && j != i implies !keep(
            #[trigger] shorter[j],
        ) by {
            assert(shorter[j] == list[j]);
        }
        lemma_filter_keeps_one(shorter, keep, i);
        if last != i {
            assert(!keep(list[last]));
        }
    }
}

/// The files to be hashed are those without a hash that have the size of another file, all of
/// them and no others, in order.
pub proof fn law_files_to_hash(records: Seq<RecordView>, i: int)
    requires
        0 <= i < records.len(),
    ensures
        needing_hash(records, records.len()).contains(i) <==> records[i].content_hash.len() == 0
            && exists|j: int|
            0 <= j < records.len() && j != i && (#[trigger] records[j]).size_bytes
                == records[i].size_bytes,
        forall|k: int|
            0 <= k < needing_hash(records, records.len()).len() ==> 0 <= (#[trigger] needing_hash(
                records,
                records.len(),
            )[k]) < records.len(),
        forall|k: int, m: int|
            0 <= k < m < needing_hash(records, records.len()).len() ==> needing_hash(
                records,
                records.len(),
            )[k] < needing_hash(records, records.len())[m],
{
    lemma_needing_hash(records, records.len());
    lemma_needing_hash_ascends(records, records.len());
    let size = records[i].size_bytes;
    let keep = |record: RecordView| record.size_bytes == size;
    if exists|j: int|
        0 <= j < records.len() && j != i && (#[trigger] records[j]).size_bytes
            == records[i].size_bytes {
        let j = choose|j: int|
            0 <= j < records.len() && j != i && (#[trigger] records[j]).size_bytes
                == records[i].size_bytes;
        if records[i].content_hash.len() == 0 {
            law_files_of_one_size_are_hashed(records, i, j);
        }
    } else {
        lemma_filter_keeps_one(records, keep, i);
    }
    assert(needing_hash(records, records.len()).contains(i) <==> needs_hash(records, i));
}

proof fn lemma_needing_hash_ascends(records: Seq<RecordView>, n: nat)
    requires
        n <= records.len(),
    ensures
        forall|k: int, m: int|
            0 <= k < m < needing_hash(records, n).len() ==> needing_hash(records, n)[k]
                < needing_hash(records, n)[m],
    decreases n,
{
    if n > 0 {
        lemma_needing_hash_ascends(records, (n - 1) as nat);
        lemma_needing_hash(records, (n - 1) as nat);
        let shorter = needing_hash(records, (n - 1) as nat);
        let all = needing_hash(records, n);
        assert forall|k: int, m: int| 0 <= k < m < all.len() implies all[k] < all[m] by {
            assert(all[k] == shorter[k]);
            if m < shorter.len() {
                assert(all[m] == shorter[m]);
            } else {
                assert(shorter[k] < n - 1);
            }
        }
    }
}

/// A record gets the last hash that was found for its path, and nothing else of it changes.
pub proof fn law_found_hash_is_given(
    records: Seq<RecordView>,
    outcomes: Seq<HashOutcome>,
    i: int,
    k: int,
)
    requires
        0 <= i < records.len(),
        0 <= k < outcomes.len(),
        outcomes[k] matches HashOutcome::Hashed { path, .. } && path@ == records[i].path,
        forall|m: int|
            k < m < outcomes.len() ==> !((#[trigger] outcomes[m]) matches HashOutcome::Hashed {
                path,
                ..
            } && path@ == records[i].path),
    ensures
        with_hashes(records, outcomes).len() == records.len(),
        with_hashes(records, outcomes)[i].content_hash == outcomes[k]->hash@,
        with_hashes(records, outcomes)[i] == (RecordView {
            content_hash: outcomes[k]->hash@,
            ..records[i]
        }),
{
    lemma_last_found_hash(outcomes, records[i].path, k);
    assert(with_hashes(records, outcomes)[i] == with_hash(records[i], outcomes));
}

proof fn lemma_last_found_hash(outcomes: Seq<HashOutcome>, path: Seq<char>, k: int)
    requires
        0 <= k < outcomes.len(),
        outcomes[k] matches HashOutcome::Hashed { path: found, .. } && found@ == path,
        forall|m: int|
            k < m < outcomes.len() ==> !((#[trigger] outcomes[m]) matches HashOutcome::Hashed {
                path: found,
                ..
            } && found@ == path),
    ensures
        hash_for(outcomes, path) == Some(outcomes[k]->hash@),
    decreases outcomes.len(),
{
    let last = outcomes.len() - 1;
    if k < last {
        let shorter = outcomes.drop_last();
        assert forall|m: int| k < m < shorter.len() implies !((
        #[trigger] shorter[m]) matches HashOutcome::Hashed { path: found, .. } && found@
            == path) by {
            assert(shorter[m] == outcomes[m]);
        }
        assert(shorter[k] == outcomes[k]);
        lemma_last_found_hash(shorter, path, k);
        assert(outcomes.last() == outcomes[last]);
    }
}

/// A record for whose path no hash was found stays as it is.
pub proof fn law_record_without_found_hash_stays(
    records: Seq<RecordView>,
    outcomes: Seq<HashOutcome>,
    i: int,
)
    requires
        0 <= i < records.len(),
        forall|m: int|
            0 <= m < outcomes.len() ==> !((#[trigger] outcomes[m]) matches HashOutcome::Hashed {
                path,
                ..
            } && path@ == records[i].path),
    ensures
        with_hashes(records, outcomes)[i] == records[i],
{
    lemma_no_found_hash(outcomes, records[i].path);
    assert(with_hashes(records, outcomes)[i] == with_hash(records[i], outcomes));
}

proof fn lemma_no_found_hash(outcomes: Seq<HashOutcome>, path: Seq<char>)
    requires
        forall|m: int|
            0 <= m < outcomes.len() ==> !((#[trigger] outcomes[m]) matches HashOutcome::Hashed {
                path: found,
                ..
            } && found@ == path),
    ensures
        hash_for(outcomes, path) is None,
    decreases outcomes.len(),
{
    if outcomes.len() > 0 {
        let shorter = outcomes.drop_last();
        assert forall|m: int| 0 <= m < shorter.len() implies !((
        #[trigger] shorter[m]) matches HashOutcome::Hashed { path: found, .. } && found@
            == path) by {
            assert(shorter[m] == outcomes[m]);
        }
        lemma_no_found_hash(shorter, path);
        assert(outcomes.last() == outcomes[outcomes.len() - 1]);
    }
}

/// Hashing counts as cancelled exactly if one of its outcomes is that it was.
pub proof fn law_one_cancelled_outcome_cancels_hashing(outcomes: Seq<HashOutcome>)
    ensures
        hashing_cancelled(outcomes) <==> outcomes.contains(HashOutcome::Cancelled),
{
    if hashing_cancelled(outcomes) {
        let i = choose|i: int| 0 <= i < outcomes.len() && (#[trigger] outcomes[i]) is Cancelled;
        assert(outcomes[i] == HashOutcome::Cancelled);
    }
    if outcomes.contains(HashOutcome::Cancelled) {
        let i = choose|i: int| 0 <= i < outcomes.len() && outcomes[i] == HashOutcome::Cancelled;
        assert(outcomes[i] is Cancelled);
    }
}

/// A group of exact duplicates shows every record with its hash, and no other, in order.
pub proof fn law_exact_group_shows_all_records_of_a_hash(records: Seq<RecordView>, hash: Seq<char>)
    ensures
        exact_group(records, hash).items == records.filter(
            |record: RecordView| record.content_hash == hash,
        ).map_values(|record: RecordView| item_of(record)),
        exact_group(records, hash).title == "同じ内容の画像"@,
        exact_group(records, hash).id == "exact-"@ + label(hash),
{
    assert(exact_group(records, hash).items =~= records.filter(
        |record: RecordView| record.content_hash == hash,
    ).map_values(|record: RecordView| item_of(record)));
}

/// The identifier of a group holds the front of its hash, twelve bytes of it.
pub proof fn law_label_is_the_front_of_the_hash(hash: Seq<char>)
    ensures
        has_label(hash) <==> is_char_boundary(encode_utf8(hash), 12),
        has_label(hash) ==> label(hash).is_prefix_of(hash) && encode_utf8(label(hash)).len() == 12,
{
    let bytes = encode_utf8(hash);
    encode_utf8_valid_utf8(hash);
    encode_utf8_decode_utf8(hash);
    if has_label(hash) {
        valid_utf8_split(bytes, 12);
        decode_utf8_split(bytes, 12);
        let front = bytes.subrange(0, 12);
        let back = bytes.subrange(12, bytes.len() as int);
        assert(hash == decode_utf8(front) + decode_utf8(back));
        assert(label(hash) =~= hash.take(label(hash).len() as int));
        decode_utf8_encode_utf8(front);
        lemma_boundary_within(bytes, 12);
    }
}

proof fn lemma_boundary_within(bytes: Seq<u8>, index: int)
    requires
        valid_utf8(bytes),
        is_char_boundary(bytes, index),
    ensures
        0 <= index <= bytes.len(),
{
    reveal_with_fuel(is_char_boundary, 2);
}

/// The identifiers of all groups can be made exactly if every hash that two records have is
/// long enough, and does not part a character after twelve bytes.
pub proof fn law_labels_are_asked_of_shared_hashes(records: Seq<RecordView>)
    ensures
        labels_defined(records) <==> forall|i: int, j: int|
            0 <= i < j < records.len() && (#[trigger] records[i]).content_hash == (
            #[trigger] records[j]).content_hash && records[i].content_hash.len() > 0
                ==> is_char_boundary(encode_utf8(records[i].content_hash), 12),
{
    if labels_defined(records) {
        assert forall|i: int, j: int|
            0 <= i < j < records.len() && (#[trigger] records[i]).content_hash == (
            #[trigger] records[j]).content_hash && records[i].content_hash.len()
                > 0 implies is_char_boundary(encode_utf8(records[i].content_hash), 12) by {
            let hash = records[i].content_hash;
            let keep = |record: RecordView| record.content_hash == hash;
            lemma_filter_keeps_two(records, keep, i, j);
            assert(with_same_hash(records, hash).len() >= 2);
            assert(has_label(hash));
        }
    }
    if forall|i: int, j: int|
        0 <= i < j < records.len() && (#[trigger] records[i]).content_hash == (
        #[trigger] records[j]).content_hash && records[i].content_hash.len() > 0
            ==> is_char_boundary(encode_utf8(records[i].content_hash), 12) {
        assert forall|hash: Seq<char>|
            #![trigger has_label(hash)]
            #![trigger with_same_hash(records, hash)]
            hash.len() > 0 && with_same_hash(records, hash).len() >= 2 implies has_label(hash) by {
            let keep = |record: RecordView| record.content_hash == hash;
            let i = lemma_filter_within(records, keep, 0);
            if forall|j: int| 0 <= j < records.len() && j != i ==> !keep(#[trigger] records[j]) {
                lemma_filter_keeps_one(records, keep, i);
            }
            let j = choose|j: int| 0 <= j < records.len() && j != i && keep(#[trigger] records[j]);
            assert(records[i].content_hash == records[j].content_hash);
            if i < j {
                assert(records[i].content_hash == hash);
            } else {
                assert(records[j].content_hash == hash);
            }
        }
    }
}

/// The paths of groups are those of all items in all groups.
pub proof fn law_paths_of_groups(groups: Seq<GroupView>, path: Seq<char>)
    ensures
        group_paths(groups).contains(path) <==> exists|g: int, k: int|
            0 <= g < groups.len() && 0 <= k < groups[g].items.len() && (
            #[trigger] groups[g].items[k]).path == path,
{
}

/// The hash of a content is its digest in hexadecimal, all of it.
pub proof fn law_hash_is_the_whole_digest(hash: Seq<char>, content: Seq<u8>)
    requires
        is_hash_of(hash, content),
    ensures
        hash == hex_bytes(sha256_digest(content)),
        hash.len() == 64,
{
}

} // verus!

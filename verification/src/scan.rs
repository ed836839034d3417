//! A scan, from the files that were found to the result.
//!
//! Reading files is left to the caller. The library says which files to read, takes what
//! was found in them, and decides what follows.
use vstd::hash_map::StringHashMap;
use vstd::hash_set::StringHashSet;
use vstd::prelude::*;
use vstd::string::*;

use crate::blur::{is_blurry, is_blurry_score};
use crate::cache::{
    by_path, cache_text, entry_or, is_score_text, is_storable, law_cache_round_trip, loaded,
    table_view,
};
use crate::errors::ScanError;
use crate::exact::{
    build_exact_groups, can_label, collect_group_paths, exact_group, exact_groups, group_paths,
    hash_duplicate_candidates, hash_for, hash_targets, hashing_cancelled, labels_defined,
    law_same_hash_shares_a_group, lemma_filter_within, needing_hash, with_hash, with_hashes, HashOutcome,
};
use crate::lists::lemma_filter_same;
use crate::paths::{is_image_path, is_supported_image, path_id, stable_id};
use crate::picture::FileFacts;
use crate::record::{
    analyzed_views, basic_view, group_views, is_detailed, item_of, item_views, items_of,
    record_views, AnalyzedImage, CacheRecord, GroupView, ImageGroup, ImageItem, ItemView,
    RecordView,
};
use crate::similar::{
    are_similar_groups, build_similar_groups_bucketed, law_similar_groups_are_components,
};

verus! {

/// What a scan is asked to look for.
#[derive(Debug, Clone, Copy)]
pub struct ScanOptions {
    pub include_subfolders: bool,
    pub detect_exact_duplicates: bool,
    pub detect_similar_images: bool,
    pub detect_blurry_images: bool,
}

/// What a scan has found.
#[derive(Debug)]
pub struct ScanResult {
    pub scanned_count: usize,
    pub skipped_count: usize,
    pub cache_hit_count: usize,
    pub exact_duplicate_groups: Vec<ImageGroup>,
    pub similar_image_groups: Vec<ImageGroup>,
    pub blurry_images: Vec<ImageItem>,
}

/// An entry met on the way through a folder. The folder itself has depth zero, its own
/// entries have depth one, and the entries of its subfolders have greater depths.
#[derive(Debug)]
pub struct FolderEntry {
    pub path: String,
    pub is_file: bool,
    pub depth: usize,
}

/// An image file that was found, with its size and its time of change where they could be
/// had.
#[derive(Debug)]
pub struct FoundFile {
    pub path: String,
    pub facts: Option<FileFacts>,
}

/// The outcome of reading and measuring one image.
#[derive(Debug)]
pub enum AnalysisOutcome {
    /// The image was measured.
    Analyzed(AnalyzedImage),
    /// The scan was cancelled before the image was read.
    Cancelled,
    /// The image could not be read.
    Failed,
}

/// Whether an entry is within a depth.
pub open spec fn is_within(depth: usize, limit: Option<usize>) -> bool {
    match limit {
        Some(limit) => depth <= limit,
        None => true,
    }
}

/// How deep to look: without a limit, or at the entries of the folder itself alone.
pub open spec fn depth_limit_for(include_subfolders: bool) -> Option<usize> {
    if include_subfolders {
        None
    } else {
        Some(1)
    }
}

/// How deep to look.
pub fn depth_limit(include_subfolders: bool) -> (limit: Option<usize>)
    ensures
        limit == depth_limit_for(include_subfolders),
{
    if include_subfolders {
        None
    } else {
        Some(1)
    }
}

/// Whether an entry is an image file to look at.
pub open spec fn is_found_image(entry: FolderEntry, include_subfolders: bool) -> bool {
    entry.is_file && is_within(entry.depth, depth_limit_for(include_subfolders)) && is_image_path(
        entry.path@,
    )
}

/// The places of the image files among the first `n` entries, in order.
pub open spec fn image_places(
    entries: Seq<FolderEntry>,
    include_subfolders: bool,
    n: nat,
) -> Seq<int>
    decreases n,
{
    if n == 0 {
        Seq::empty()
    } else if is_found_image(entries[n - 1], include_subfolders) {
        image_places(entries, include_subfolders, (n - 1) as nat).push(n - 1)
    } else {
        image_places(entries, include_subfolders, (n - 1) as nat)
    }
}

/// The image files among entries, in order.
pub open spec fn found_images(
    entries: Seq<FolderEntry>,
    include_subfolders: bool,
) -> Seq<FolderEntry> {
    entries.filter(|entry: FolderEntry| is_found_image(entry, include_subfolders))
}

/// What a walk that stops at a depth meets of the entries that a walk without a limit meets.
pub open spec fn walked(entries: Seq<FolderEntry>, limit: Option<usize>) -> Seq<FolderEntry> {
    entries.filter(|entry: FolderEntry| is_within(entry.depth, limit))
}

/// The places of the entries that are image files, in order. Without subfolders, deeper
/// entries are left out.
pub fn collect_image_paths(entries: &[FolderEntry], include_subfolders: bool) -> (places: Vec<
    usize,
>)
    ensures
        places@.map_values(|i: usize| i as int) == image_places(
            entries@,
            include_subfolders,
            entries@.len(),
        ),
        places@.map_values(|i: usize| entries@[i as int]) == found_images(
            entries@,
            include_subfolders,
        ),
{
    let limit: Option<usize> = depth_limit(include_subfolders);
    let mut places: Vec<usize> = Vec::new();
    let mut i: usize = 0;
    assert(places@.map_values(|i: usize| i as int) =~= Seq::empty());
    while i < entries.len()
        invariant
            i <= entries@.len(),
            limit == depth_limit_for(include_subfolders),
            places@.map_values(|i: usize| i as int) == image_places(
                entries@,
                include_subfolders,
                i as nat,
            ),
        decreases entries@.len() - i,
    {
        let within: bool = match limit {
            Some(limit) => entries[i].depth <= limit,
            None => true,
        };
        if entries[i].is_file && within && is_supported_image(entries[i].path.as_str()) {
            let ghost before = places@;
            places.push(i);
            assert(places@.map_values(|i: usize| i as int) =~= before.map_values(
                |i: usize| i as int,
            ).push(i as int));
        }
        i = i + 1;
    }
    proof {
        let listed = image_places(entries@, include_subfolders, entries@.len());
        lemma_places_of_images(entries@, include_subfolders, entries@.len());
        assert(entries@.take(entries@.len() as int) =~= entries@);
        assert(places@.map_values(|i: usize| entries@[i as int]) =~= listed.map_values(
            |i: int| entries@[i],
        )) by {
            assert forall|k: int| 0 <= k < places@.len() implies entries@[places@[k] as int]
                == entries@[listed[k]] by {
                assert(places@.map_values(|i: usize| i as int)[k] == listed[k]);
            }
        }
    }
    places
}

/// The entries at the places of the image files are the image files.
proof fn lemma_places_of_images(entries: Seq<FolderEntry>, include_subfolders: bool, n: nat)
    requires
        n <= entries.len(),
    ensures
        image_places(entries, include_subfolders, n).map_values(|i: int| entries[i])
            == found_images(entries.take(n as int), include_subfolders),
    decreases n,
{
    reveal(Seq::filter);
    let listed = image_places(entries, include_subfolders, n);
    if n > 0 {
        lemma_places_of_images(entries, include_subfolders, (n - 1) as nat);
        let before = image_places(entries, include_subfolders, (n - 1) as nat);
        assert(entries.take(n as int).drop_last() =~= entries.take(n - 1));
        if is_found_image(entries[n - 1], include_subfolders) {
            assert(listed.map_values(|i: int| entries[i]) =~= before.map_values(
                |i: int| entries[i],
            ).push(entries[n - 1]));
        }
    } else {
        assert(listed.map_values(|i: int| entries[i]) =~= Seq::empty());
    }
}

/// Filtering twice is filtering by both.
proof fn lemma_filter_twice(
    entries: Seq<FolderEntry>,
    first: spec_fn(FolderEntry) -> bool,
    second: spec_fn(FolderEntry) -> bool,
    both: spec_fn(FolderEntry) -> bool,
)
    requires
        forall|k: int|
            0 <= k < entries.len() ==> both(#[trigger] entries[k]) == (first(entries[k]) && second(
                entries[k],
            )),
    ensures
        entries.filter(first).filter(second) == entries.filter(both),
    decreases entries.len(),
{
    reveal(Seq::filter);
    if entries.len() > 0 {
        let shorter = entries.drop_last();
        let last = entries[entries.len() - 1];
        assert forall|k: int| 0 <= k < shorter.len() implies both(#[trigger] shorter[k]) == (first(
            shorter[k],
        ) && second(shorter[k])) by {
            assert(shorter[k] == entries[k]);
        }
        lemma_filter_twice(shorter, first, second, both);
        let kept = shorter.filter(first);
        assert(both(last) == (first(last) && second(last)));
        if first(last) {
            assert(kept.push(last).drop_last() =~= kept);
            assert(kept.push(last).last() == last);
        }
    } else {
        assert(entries.filter(first).filter(second) =~= entries.filter(both));
    }
}

/// Without subfolders, the images found in a folder are exactly those found with subfolders
/// that lie directly in it.
pub proof fn law_flat_scan_finds_the_images_of_the_folder(entries: Seq<FolderEntry>)
    requires
        forall|k: int|
            0 <= k < entries.len() && (#[trigger] entries[k]).depth == 0 ==> !entries[k].is_file,
    ensures
        found_images(entries, false) == found_images(entries, true).filter(
            |entry: FolderEntry| entry.depth == 1,
        ),
{
    let all = |entry: FolderEntry| is_found_image(entry, true);
    let direct = |entry: FolderEntry| entry.depth == 1;
    let flat = |entry: FolderEntry| is_found_image(entry, false);
    lemma_filter_twice(entries, all, direct, flat);
}

/// Stopping a walk at the depth limit loses no image.
pub proof fn law_limited_walk_meets_every_image(
    entries: Seq<FolderEntry>,
    include_subfolders: bool,
)
    ensures
        found_images(walked(entries, depth_limit_for(include_subfolders)), include_subfolders)
            == found_images(entries, include_subfolders),
{
    let limit = depth_limit_for(include_subfolders);
    let within = |entry: FolderEntry| is_within(entry.depth, limit);
    let found = |entry: FolderEntry| is_found_image(entry, include_subfolders);
    lemma_filter_twice(entries, within, found, found);
}

/// The name of the cache file for a folder.
pub fn cache_file_name(root: &str) -> (name: String)
    ensures
        name@ == path_id(root@) + ".tsv"@,
{
    let mut name: String = stable_id(root);
    name.append(".tsv");
    name
}

/// The number of workers for a number of processors that may be unknown: one less, within
/// one and four.
pub open spec fn worker_count(available: Option<usize>) -> nat {
    let available = match available {
        Some(available) => available,
        None => 4,
    };
    if available <= 2 {
        1
    } else if available >= 5 {
        4
    } else {
        (available - 1) as nat
    }
}

/// How many items one worker gets, so that all workers together get all items: one at least.
pub open spec fn chunk_length(item_count: nat, available: Option<usize>) -> int {
    if item_count == 0 {
        1
    } else {
        (item_count + worker_count(available) - 1) / (worker_count(available) as int)
    }
}

/// How many items one worker gets.
pub fn chunk_size(item_count: usize, available: Option<usize>) -> (size: usize)
    ensures
        size == chunk_length(item_count as nat, available),
        size >= 1,
{
    let available: usize = match available {
        Some(available) => available,
        None => 4,
    };
    let workers: usize = if available <= 2 {
        1
    } else if available >= 5 {
        4
    } else {
        available - 1
    };
    let whole: usize = item_count / workers;
    proof {
        lemma_round_up(item_count as int, workers as int);
    }
    if item_count == 0 {
        1
    } else if item_count % workers == 0 {
        whole
    } else {
        whole + 1
    }
}

/// Rounding up, by quotient and rest.
proof fn lemma_round_up(n: int, d: int)
    requires
        n >= 0,
        1 <= d <= 4,
    ensures
        (n + d - 1) / d == n / d + if n % d == 0 {
            0int
        } else {
            1int
        },
        n > 0 ==> (n + d - 1) / d >= 1,
        n / d <= n,
        d > 1 && n > 0 ==> n / d < n,
{
    if d == 1 {
    } else if d == 2 {
    } else if d == 3 {
    } else {
        assert(d == 4);
    }
}

/// The chunks are enough for all items, and not more than the workers.
pub proof fn law_chunks_cover_all_items(item_count: nat, available: Option<usize>)
    ensures
        chunk_length(item_count, available) * worker_count(available) >= item_count,
        (item_count + chunk_length(item_count, available) - 1) / chunk_length(
            item_count,
            available,
        ) <= worker_count(available),
{
    let size = chunk_length(item_count, available);
    let d = worker_count(available) as int;
    let n = item_count as int;
    lemma_round_up(n, d);
    if n > 0 {
        assert(d * (n / d) + n % d == n && 0 <= n % d < d) by (nonlinear_arith)
            requires
                d >= 1,
        ;
        assert(size * d >= n) by (nonlinear_arith)
            requires
                d * (n / d) + n % d == n,
                0 <= n % d < d,
                size == n / d + if n % d == 0 {
                    0int
                } else {
                    1int
                },
        ;
    }
    assert((n + size - 1) / size <= d) by (nonlinear_arith)
        requires
            size >= 1,
            size * d >= n,
    ;
}

/// Whether the cache knows a file as it is now.
pub open spec fn is_known(file: FoundFile, cache: Map<Seq<char>, RecordView>) -> bool {
    &&& file.facts is Some
    &&& cache.contains_key(file.path@)
    &&& cache[file.path@].size_bytes == file.facts->0.size_bytes
    &&& cache[file.path@].modified_at == file.facts->0.modified_at
}

/// What is known of a file: what the cache has, or else nothing but its size and its time of
/// change.
pub open spec fn known_record(file: FoundFile, cache: Map<Seq<char>, RecordView>) -> RecordView {
    if is_known(file, cache) {
        cache[file.path@]
    } else {
        basic_view(file.path@, file.facts->0.size_bytes, file.facts->0.modified_at)
    }
}

/// What is known of the first `n` files, in order. A file that cannot be looked at is left
/// out.
pub open spec fn known_records(
    files: Seq<FoundFile>,
    cache: Map<Seq<char>, RecordView>,
    n: nat,
) -> Seq<RecordView>
    decreases n,
{
    if n == 0 {
        Seq::empty()
    } else if files[n - 1].facts is Some {
        known_records(files, cache, (n - 1) as nat).push(known_record(files[n - 1], cache))
    } else {
        known_records(files, cache, (n - 1) as nat)
    }
}

/// How many of the first `n` files the cache knows as they are now.
pub open spec fn known_count(
    files: Seq<FoundFile>,
    cache: Map<Seq<char>, RecordView>,
    n: nat,
) -> nat
    decreases n,
{
    if n == 0 {
        0
    } else {
        known_count(files, cache, (n - 1) as nat) + if is_known(files[n - 1], cache) {
            1nat
        } else {
            0nat
        }
    }
}

/// A scan whose files are known, and whose files of equal size are to be hashed next.
#[derive(Debug)]
pub struct HashingStage {
    pub options: ScanOptions,
    pub total: usize,
    pub skipped_count: usize,
    pub cache_hit_count: usize,
    pub records: Vec<CacheRecord>,
}

/// A scan whose exact duplicates are known, and whose other images are to be measured next.
#[derive(Debug)]
pub struct AnalysisStage {
    pub options: ScanOptions,
    pub total: usize,
    pub skipped_count: usize,
    pub cache_hit_count: usize,
    pub exact_duplicate_groups: Vec<ImageGroup>,
    pub cache_records: Vec<CacheRecord>,
    pub analyzed: Vec<AnalyzedImage>,
    pub detail_targets: Vec<CacheRecord>,
}

/// What measuring came to: what to keep in the cache, and how the scan goes on.
#[derive(Debug)]
pub struct MeasuredScan {
    pub cache_records: Vec<CacheRecord>,
    pub outcome: Result<GroupingStage, ScanError>,
}

/// A scan whose images are measured, and are to be compared next.
#[derive(Debug)]
pub struct GroupingStage {
    pub options: ScanOptions,
    pub total: usize,
    pub skipped_count: usize,
    pub cache_hit_count: usize,
    pub exact_duplicate_groups: Vec<ImageGroup>,
    pub images: Vec<AnalyzedImage>,
}

/// A scan whose images are compared, and whose blurry ones are to be listed next.
#[derive(Debug)]
pub struct ListingStage {
    pub options: ScanOptions,
    pub total: usize,
    pub skipped_count: usize,
    pub cache_hit_count: usize,
    pub exact_duplicate_groups: Vec<ImageGroup>,
    pub similar_image_groups: Vec<ImageGroup>,
    pub images: Vec<AnalyzedImage>,
}

/// Starts a scan with the files that were found and the cache of the folder.
pub fn match_cache(
    options: ScanOptions,
    files: &[FoundFile],
    cache: &StringHashMap<CacheRecord>,
) -> (stage: HashingStage)
    ensures
        stage.options == options,
        stage.total == files@.len(),
        record_views(stage.records@) == known_records(
            files@,
            table_view(cache@),
            files@.len(),
        ),
        stage.cache_hit_count == known_count(files@, table_view(cache@), files@.len()),
        stage.skipped_count + stage.records@.len() == stage.total,
        stage.well_formed(),
{
    let ghost known = table_view(cache@);
    let mut records: Vec<CacheRecord> = Vec::with_capacity(files.len());
    let mut cache_hit_count: usize = 0;
    let mut skipped_count: usize = 0;
    let mut i: usize = 0;
    assert(record_views(records@) =~= Seq::empty());
    while i < files.len()
        invariant
            i <= files@.len(),
            known == table_view(cache@),
            record_views(records@) == known_records(files@, known, i as nat),
            cache_hit_count == known_count(files@, known, i as nat),
            cache_hit_count <= i,
            skipped_count + records@.len() == i,
        decreases files@.len() - i,
    {
        let file: &FoundFile = &files[i];
        let ghost before = records@;
        match file.facts {
            None => {
                skipped_count = skipped_count + 1;
            },
            Some(facts) => {
                let mut hit: Option<CacheRecord> = None;
                if let Some(record) = cache.get(file.path.as_str()) {
                    assert(known.contains_key(file.path@) && known[file.path@] == record@);
                    if record.size_bytes == facts.size_bytes && record.modified_at
                        == facts.modified_at {
                        hit = Some(record.clone());
                    }
                } else {
                    assert(!known.contains_key(file.path@));
                }
                match hit {
                    Some(record) => {
                        let ghost added = record@;
                        cache_hit_count = cache_hit_count + 1;
                        records.push(record);
                        assert(record_views(records@) =~= record_views(before).push(added));
                    },
                    None => {
                        let record: CacheRecord = CacheRecord::basic(
                            file.path.as_str(),
                            facts.size_bytes,
                            facts.modified_at,
                        );
                        let ghost added = record@;
                        records.push(record);
                        assert(record_views(records@) =~= record_views(before).push(added));
                    },
                }
            },
        }
        i = i + 1;
    }
    HashingStage { options, total: files.len(), skipped_count, cache_hit_count, records }
}

/// The groups of exact duplicates among records, where they are asked for.
pub open spec fn planned_groups(options: ScanOptions, records: Seq<RecordView>) -> Seq<GroupView> {
    if options.detect_exact_duplicates {
        exact_groups(records)
    } else {
        Seq::empty()
    }
}

/// Whether all that a scan asks for was measured in the image that a record is about. What an
/// earlier scan has left may lack the blur score.
pub open spec fn is_measured(options: ScanOptions, record: RecordView) -> bool {
    is_detailed(record) && (options.detect_blurry_images ==> record.blur_score is Some)
}

/// Whether a record is not shown as an exact duplicate, and has been measured or not.
pub open spec fn is_left(
    options: ScanOptions,
    duplicates: Set<Seq<char>>,
    measured: bool,
    record: RecordView,
) -> bool {
    !duplicates.contains(record.path) && is_measured(options, record) == measured
}

/// The records that are not shown as exact duplicates, measured or not, in order.
pub open spec fn left_records(
    options: ScanOptions,
    records: Seq<RecordView>,
    duplicates: Set<Seq<char>>,
    measured: bool,
) -> Seq<RecordView> {
    records.filter(|record: RecordView| is_left(options, duplicates, measured, record))
}

impl ScanOptions {
    /// Whether all that the scan asks for was measured in the image that a record is about.
    pub fn measured_in(&self, record: &CacheRecord) -> (measured: bool)
        ensures
            measured == is_measured(*self, record@),
    {
        record.has_details() && (!self.detect_blurry_images || record.blur_score.is_some())
    }
}

impl HashingStage {
    /// Whether no more records and skipped files are counted than files were found.
    pub open spec fn well_formed(&self) -> bool {
        self.skipped_count + self.records@.len() <= self.total
    }

    /// Whether the exact duplicates can be grouped.
    pub open spec fn is_plannable(&self) -> bool {
        self.options.detect_exact_duplicates ==> labels_defined(record_views(self.records@))
    }

    /// The places of the records whose files are to be hashed.
    pub fn targets(&self) -> (targets: Vec<usize>)
        ensures
            targets@.map_values(|i: usize| i as int) == if self.options.detect_exact_duplicates {
                needing_hash(record_views(self.records@), self.records@.len())
            } else {
                Seq::empty()
            },
    {
        if self.options.detect_exact_duplicates {
            hash_targets(self.records.as_slice())
        } else {
            let none: Vec<usize> = Vec::new();
            assert(none@.map_values(|i: usize| i as int) =~= Seq::empty());
            none
        }
    }

    /// Takes the hashes that were found. A scan that was cancelled meanwhile ends here; its
    /// records are to be kept.
    pub fn take_hashes(&mut self, outcomes: &Vec<HashOutcome>) -> (outcome: Result<(), ScanError>)
        ensures
            old(self).well_formed() ==> final(self).well_formed(),
            final(self).options == old(self).options,
            final(self).total == old(self).total,
            final(self).skipped_count == old(self).skipped_count,
            final(self).cache_hit_count == old(self).cache_hit_count,
            record_views(final(self).records@) == if old(self).options.detect_exact_duplicates {
                with_hashes(record_views(old(self).records@), outcomes@)
            } else {
                record_views(old(self).records@)
            },
            outcome == if old(self).options.detect_exact_duplicates && hashing_cancelled(
                outcomes@,
            ) {
                Err::<(), ScanError>(ScanError::Interrupted)
            } else {
                Ok(())
            },
    {
        if self.options.detect_exact_duplicates {
            let ghost before = record_views(self.records@);
            let outcome: Result<(), ScanError> = hash_duplicate_candidates(
                &mut self.records,
                outcomes,
            );
            assert(record_views(self.records@).len() == before.len());
            outcome
        } else {
            Ok(())
        }
    }

    /// Whether the exact duplicates can be grouped.
    pub fn can_plan(&self) -> (plannable: bool)
        ensures
            plannable == self.is_plannable(),
    {
        !self.options.detect_exact_duplicates || can_label(self.records.as_slice())
    }

    /// Groups the exact duplicates, and parts the other images into those in which all was
    /// measured before and those that are still to be measured.
    pub fn plan(self) -> (stage: AnalysisStage)
        requires
            self.is_plannable(),
        ensures
            self.well_formed() ==> stage.well_formed(),
            stage.options == self.options,
            stage.total == self.total,
            stage.skipped_count == self.skipped_count,
            stage.cache_hit_count == self.cache_hit_count,
            record_views(stage.cache_records@) == record_views(self.records@),
            group_views(stage.exact_duplicate_groups@) == planned_groups(
                self.options,
                record_views(self.records@),
            ),
            analyzed_views(stage.analyzed@) == left_records(
                self.options,
                record_views(self.records@),
                group_paths(planned_groups(self.options, record_views(self.records@))),
                true,
            ),
            record_views(stage.detail_targets@) == left_records(
                self.options,
                record_views(self.records@),
                group_paths(planned_groups(self.options, record_views(self.records@))),
                false,
            ),
    {
        let ghost views = record_views(self.records@);
        let exact_duplicate_groups: Vec<ImageGroup> = if self.options.detect_exact_duplicates {
            build_exact_groups(self.records.as_slice())
        } else {
            let none: Vec<ImageGroup> = Vec::new();
            assert(group_views(none@) =~= Seq::empty());
            none
        };
        let duplicates: StringHashSet = collect_group_paths(exact_duplicate_groups.as_slice());
        let ghost paths = duplicates@;
        let mut analyzed: Vec<AnalyzedImage> = Vec::new();
        let mut detail_targets: Vec<CacheRecord> = Vec::new();
        let mut i: usize = 0;
        proof {
            reveal(Seq::filter);
            assert(views.take(0) =~= Seq::empty());
            assert(analyzed_views(analyzed@) =~= Seq::empty());
            assert(record_views(detail_targets@) =~= Seq::empty());
        }
        while i < self.records.len()
            invariant
                i <= self.records@.len(),
                views == record_views(self.records@),
                paths == duplicates@,
                analyzed_views(analyzed@) == left_records(
                    self.options,
                    views.take(i as int),
                    paths,
                    true,
                ),
                record_views(detail_targets@) == left_records(
                    self.options,
                    views.take(i as int),
                    paths,
                    false,
                ),
                detail_targets@.len() <= i,
            decreases self.records@.len() - i,
        {
            let record: &CacheRecord = &self.records[i];
            let ghost before_analyzed = analyzed@;
            let ghost before_targets = detail_targets@;
            proof {
                reveal(Seq::filter);
                assert(views.take(i + 1).drop_last() =~= views.take(i as int));
                assert(views.take(i + 1).last() == record@);
            }
            if !duplicates.contains(record.path.as_str()) {
                if self.options.measured_in(record) {
                    analyzed.push(AnalyzedImage { record: record.clone() });
                    assert(analyzed_views(analyzed@) =~= analyzed_views(before_analyzed).push(
                        record@,
                    ));
                } else {
                    detail_targets.push(record.clone());
                    assert(record_views(detail_targets@) =~= record_views(before_targets).push(
                        record@,
                    ));
                }
            }
            i = i + 1;
        }
        assert(views.take(i as int) =~= views);
        AnalysisStage {
            options: self.options,
            total: self.total,
            skipped_count: self.skipped_count,
            cache_hit_count: self.cache_hit_count,
            exact_duplicate_groups,
            cache_records: self.records,
            analyzed,
            detail_targets,
        }
    }
}

impl AnalysisStage {
    /// Whether no more images are to be measured than there are records, and no more records
    /// and skipped files are counted than files were found.
    pub open spec fn well_formed(&self) -> bool {
        &&& self.detail_targets@.len() <= self.cache_records@.len()
        &&& self.skipped_count + self.cache_records@.len() <= self.total
    }

    /// Takes what was found in the images that were still to be measured. A scan that was
    /// cancelled meanwhile ends here; what was measured is kept. An image that was described
    /// by an earlier scan, and for which nothing was measured now, is compared as it was.
    pub fn take_measures(self, outcomes: &Vec<AnalysisOutcome>) -> (measured: MeasuredScan)
        requires
            self.skipped_count + outcomes@.len() <= usize::MAX,
        ensures
            record_views(measured.cache_records@) == with_measures(
                record_views(self.cache_records@),
                outcomes@,
            ),
            match measured.outcome {
                Err(error) => analysis_cancelled(outcomes@) && error == ScanError::Interrupted,
                Ok(stage) => {
                    &&& !analysis_cancelled(outcomes@)
                    &&& stage.options == self.options
                    &&& stage.total == self.total
                    &&& stage.skipped_count == self.skipped_count + failure_count(outcomes@)
                    &&& stage.cache_hit_count == self.cache_hit_count
                    &&& group_views(stage.exact_duplicate_groups@) == group_views(
                        self.exact_duplicate_groups@,
                    )
                    &&& analyzed_views(stage.images@) == compared_images(
                        analyzed_views(self.analyzed@),
                        record_views(self.detail_targets@),
                        outcomes@,
                    )
                },
            },
    {
        let merged: Merged = merge_outcomes(outcomes);
        let ghost kept = record_views(self.cache_records@);
        let mut cache_records: Vec<CacheRecord> = Vec::with_capacity(self.cache_records.len());
        let mut i: usize = 0;
        while i < self.cache_records.len()
            invariant
                i <= self.cache_records@.len(),
                kept == record_views(self.cache_records@),
                merged.represents(outcomes@),
                cache_records@.len() == i,
                forall|k: int|
                    0 <= k < i ==> (#[trigger] cache_records@[k])@ == with_measure(
                        kept[k],
                        outcomes@,
                    ),
            decreases self.cache_records@.len() - i,
        {
            let record: &CacheRecord = &self.cache_records[i];
            assert(kept[i as int] == record@);
            match merged.places.get(record.path.as_str()) {
                Some(place) => {
                    assert(merged.places@.contains_key(record.path@));
                    cache_records.push(merged.images[*place].record.clone());
                },
                None => {
                    assert(!merged.places@.contains_key(record.path@));
                    cache_records.push(record.clone());
                },
            }
            i = i + 1;
        }
        assert(record_views(cache_records@) =~= with_measures(kept, outcomes@));
        if merged.cancelled {
            return MeasuredScan { cache_records, outcome: Err(ScanError::Interrupted) };
        }
        let ghost targets = record_views(self.detail_targets@);
        let mut described: Vec<AnalyzedImage> = Vec::new();
        let mut k: usize = 0;
        proof {
            reveal(Seq::filter);
            assert(targets.take(0) =~= Seq::empty());
            assert(analyzed_views(described@) =~= still_described(targets.take(0), outcomes@));
        }
        while k < self.detail_targets.len()
            invariant
                k <= self.detail_targets@.len(),
                targets == record_views(self.detail_targets@),
                merged.represents(outcomes@),
                analyzed_views(described@) == still_described(targets.take(k as int), outcomes@),
            decreases self.detail_targets@.len() - k,
        {
            let record: &CacheRecord = &self.detail_targets[k];
            let ghost before = described@;
            proof {
                reveal(Seq::filter);
                assert(targets.take(k + 1).drop_last() =~= targets.take(k as int));
                assert(targets.take(k + 1).last() == record@);
            }
            let measured: bool = match merged.places.get(record.path.as_str()) {
                Some(_) => true,
                None => false,
            };
            assert(measured == merged.places@.contains_key(record.path@));
            if record.has_details() && !measured {
                described.push(AnalyzedImage { record: record.clone() });
                assert(analyzed_views(described@) =~= analyzed_views(before).push(record@));
            }
            k = k + 1;
        }
        assert(targets.take(k as int) =~= targets);
        let mut images: Vec<AnalyzedImage> = self.analyzed;
        let ghost earlier = images@;
        let mut fresh: Vec<AnalyzedImage> = merged.images;
        let ghost added = fresh@;
        let ghost again = described@;
        images.append(&mut fresh);
        images.append(&mut described);
        assert(analyzed_views(images@) =~= analyzed_views(earlier) + analyzed_views(added)
            + analyzed_views(again));
        MeasuredScan {
            cache_records,
            outcome: Ok(
                GroupingStage {
                    options: self.options,
                    total: self.total,
                    skipped_count: self.skipped_count + merged.failures,
                    cache_hit_count: self.cache_hit_count,
                    exact_duplicate_groups: self.exact_duplicate_groups,
                    images,
                },
            ),
        }
    }
}

impl GroupingStage {
    /// Groups the images that look alike, where they are asked for.
    pub fn group_similar(self) -> (stage: ListingStage)
        ensures
            stage.options == self.options,
            stage.total == self.total,
            stage.skipped_count == self.skipped_count,
            stage.cache_hit_count == self.cache_hit_count,
            group_views(stage.exact_duplicate_groups@) == group_views(
                self.exact_duplicate_groups@,
            ),
            analyzed_views(stage.images@) == analyzed_views(self.images@),
            if self.options.detect_similar_images {
                are_similar_groups(
                    analyzed_views(self.images@),
                    group_views(stage.similar_image_groups@),
                )
            } else {
                stage.similar_image_groups@.len() == 0
            },
    {
        let similar_image_groups: Vec<ImageGroup> = if self.options.detect_similar_images {
            build_similar_groups_bucketed(self.images.as_slice())
        } else {
            Vec::new()
        };
        ListingStage {
            options: self.options,
            total: self.total,
            skipped_count: self.skipped_count,
            cache_hit_count: self.cache_hit_count,
            exact_duplicate_groups: self.exact_duplicate_groups,
            similar_image_groups,
            images: self.images,
        }
    }
}

impl ListingStage {
    /// Lists the images that may be blurred, where they are asked for, and ends the scan.
    pub fn list_blurry(self) -> (result: ScanResult)
        ensures
            result.scanned_count == self.total,
            result.skipped_count == self.skipped_count,
            result.cache_hit_count == self.cache_hit_count,
            group_views(result.exact_duplicate_groups@) == group_views(
                self.exact_duplicate_groups@,
            ),
            group_views(result.similar_image_groups@) == group_views(self.similar_image_groups@),
            item_views(result.blurry_images@) == if self.options.detect_blurry_images {
                blurry_items(analyzed_views(self.images@))
            } else {
                Seq::empty()
            },
    {
        let blurry_images: Vec<ImageItem> = if self.options.detect_blurry_images {
            blurry_among(self.images.as_slice())
        } else {
            Vec::new()
        };
        assert(!self.options.detect_blurry_images ==> item_views(blurry_images@) =~= Seq::empty());
        ScanResult {
            scanned_count: self.total,
            skipped_count: self.skipped_count,
            cache_hit_count: self.cache_hit_count,
            exact_duplicate_groups: self.exact_duplicate_groups,
            similar_image_groups: self.similar_image_groups,
            blurry_images,
        }
    }
}

/// The last that was measured for a path.
pub open spec fn measured_for(outcomes: Seq<AnalysisOutcome>, path: Seq<char>) -> Option<
    RecordView,
>
    decreases outcomes.len(),
{
    if outcomes.len() == 0 {
        None
    } else {
        match outcomes.last() {
            AnalysisOutcome::Analyzed(image) => if image@.path == path {
                Some(image@)
            } else {
                measured_for(outcomes.drop_last(), path)
            },
            _ => measured_for(outcomes.drop_last(), path),
        }
    }
}

/// What was measured for the path of a record, or else the record as it was.
pub open spec fn with_measure(record: RecordView, outcomes: Seq<AnalysisOutcome>) -> RecordView {
    match measured_for(outcomes, record.path) {
        Some(measured) => measured,
        None => record,
    }
}

/// Records with what was measured for their paths.
pub open spec fn with_measures(
    records: Seq<RecordView>,
    outcomes: Seq<AnalysisOutcome>,
) -> Seq<RecordView> {
    records.map_values(|record: RecordView| with_measure(record, outcomes))
}

/// The paths for which something was measured, each once, in the order in which they come
/// first.
pub open spec fn measured_paths(outcomes: Seq<AnalysisOutcome>) -> Seq<Seq<char>>
    decreases outcomes.len(),
{
    if outcomes.len() == 0 {
        Seq::empty()
    } else {
        let before = measured_paths(outcomes.drop_last());
        match outcomes.last() {
            AnalysisOutcome::Analyzed(image) => if before.contains(image@.path) {
                before
            } else {
                before.push(image@.path)
            },
            _ => before,
        }
    }
}

/// What was measured, once for each path.
pub open spec fn fresh_records(outcomes: Seq<AnalysisOutcome>) -> Seq<RecordView> {
    measured_paths(outcomes).map_values(|path: Seq<char>| measured_for(outcomes, path)->0)
}

/// Whether an image was described by an earlier scan, and nothing was measured for it now.
pub open spec fn is_still_described(record: RecordView, outcomes: Seq<AnalysisOutcome>) -> bool {
    is_detailed(record) && measured_for(outcomes, record.path) is None
}

/// The images to be measured for which nothing was measured, but which an earlier scan has
/// described, in order.
pub open spec fn still_described(
    targets: Seq<RecordView>,
    outcomes: Seq<AnalysisOutcome>,
) -> Seq<RecordView> {
    targets.filter(|record: RecordView| is_still_described(record, outcomes))
}

/// The images that are compared: those that needed no measuring, those that were measured,
/// and those that an earlier scan has described.
pub open spec fn compared_images(
    analyzed: Seq<RecordView>,
    targets: Seq<RecordView>,
    outcomes: Seq<AnalysisOutcome>,
) -> Seq<RecordView> {
    analyzed + fresh_records(outcomes) + still_described(targets, outcomes)
}

/// The images that are compared, for the records of a scan.
pub open spec fn images_of_scan(
    options: ScanOptions,
    records: Seq<RecordView>,
    duplicates: Set<Seq<char>>,
    outcomes: Seq<AnalysisOutcome>,
) -> Seq<RecordView> {
    compared_images(
        left_records(options, records, duplicates, true),
        left_records(options, records, duplicates, false),
        outcomes,
    )
}

/// How many images could not be read.
pub open spec fn failure_count(outcomes: Seq<AnalysisOutcome>) -> nat
    decreases outcomes.len(),
{
    if outcomes.len() == 0 {
        0
    } else {
        failure_count(outcomes.drop_last()) + if outcomes.last() is Failed {
            1nat
        } else {
            0nat
        }
    }
}

/// Whether measuring was cancelled.
pub open spec fn analysis_cancelled(outcomes: Seq<AnalysisOutcome>) -> bool {
    exists|i: int| 0 <= i < outcomes.len() && (#[trigger] outcomes[i]) is Cancelled
}

/// Whether an image has a score that counts as blurry.
pub open spec fn looks_blurry(image: RecordView) -> bool {
    image.blur_score matches Some(score) && is_blurry_score(score)
}

/// What is shown of the blurry ones among images, in order.
pub open spec fn blurry_items(images: Seq<RecordView>) -> Seq<ItemView> {
    items_of(images.filter(|image: RecordView| looks_blurry(image)))
}

/// What outcomes come to: the images that were measured, where each path has its image, and
/// what else happened.
struct Merged {
    places: StringHashMap<usize>,
    images: Vec<AnalyzedImage>,
    failures: usize,
    cancelled: bool,
}

impl Merged {
    spec fn represents(&self, outcomes: Seq<AnalysisOutcome>) -> bool {
        &&& analyzed_views(self.images@) == fresh_records(outcomes)
        &&& self.failures == failure_count(outcomes)
        &&& self.failures <= outcomes.len()
        &&& self.cancelled == analysis_cancelled(outcomes)
        &&& forall|path: Seq<char>|
            #![trigger self.places@.contains_key(path)]
            #![trigger measured_for(outcomes, path)]
            match measured_for(outcomes, path) {
                Some(measured) => self.places@.contains_key(path) && self.places@[path]
                    < self.images@.len() && self.images@[self.places@[path] as int]@ == measured
                    && measured_paths(outcomes)[self.places@[path] as int] == path,
                None => !self.places@.contains_key(path),
            }
    }
}

/// The paths collected are those for which something was measured, each once.
proof fn lemma_measured_paths(outcomes: Seq<AnalysisOutcome>)
    ensures
        measured_paths(outcomes).no_duplicates(),
        forall|path: Seq<char>|
            measured_paths(outcomes).contains(path) <==> (#[trigger] measured_for(
                outcomes,
                path,
            )) is Some,
        forall|path: Seq<char>|
            (#[trigger] measured_for(outcomes, path)) is Some ==> measured_for(
                outcomes,
                path,
            )->0.path == path,
    decreases outcomes.len(),
{
    if outcomes.len() > 0 {
        let shorter = outcomes.drop_last();
        lemma_measured_paths(shorter);
        let before = measured_paths(shorter);
        let all = measured_paths(outcomes);
        assert forall|path: Seq<char>|
            all.contains(path) <==> (#[trigger] measured_for(outcomes, path)) is Some by {
            assert(before.contains(path) <==> measured_for(shorter, path) is Some);
            if before.contains(path) {
                let k = choose|k: int| 0 <= k < before.len() && before[k] == path;
                assert(all[k] == path);
            }
            if all.contains(path) {
                let k = choose|k: int| 0 <= k < all.len() && all[k] == path;
                if k < before.len() {
                    assert(before[k] == path);
                }
            }
            if let AnalysisOutcome::Analyzed(image) = outcomes.last() {
                if !before.contains(image@.path) {
                    assert(all[all.len() - 1] == image@.path);
                }
            }
        }
        assert forall|path: Seq<char>| (#[trigger] measured_for(
            outcomes,
            path,
        )) is Some implies measured_for(outcomes, path)->0.path == path by {
            assert(measured_for(shorter, path) == measured_for(shorter, path));
        }
    }
}

/// Goes through outcomes.
fn merge_outcomes(outcomes: &Vec<AnalysisOutcome>) -> (merged: Merged)
    ensures
        merged.represents(outcomes@),
{
    let mut merged: Merged = Merged {
        places: StringHashMap::new(),
        images: Vec::new(),
        failures: 0,
        cancelled: false,
    };
    let mut i: usize = 0;
    proof {
        assert(outcomes@.take(0) =~= Seq::empty());
        assert(analyzed_views(merged.images@) =~= fresh_records(outcomes@.take(0)));
    }
    while i < outcomes.len()
        invariant
            i <= outcomes@.len(),
            merged.represents(outcomes@.take(i as int)),
        decreases outcomes@.len() - i,
    {
        let ghost seen = outcomes@.take(i as int);
        let ghost next = outcomes@.take(i + 1);
        let ghost old_merged = merged;
        proof {
            assert(next.drop_last() =~= seen);
            assert(next.last() == outcomes@[i as int]);
            lemma_measured_paths(seen);
            lemma_measured_paths(next);
        }
        match &outcomes[i] {
            AnalysisOutcome::Analyzed(image) => {
                let found: Option<usize> = match merged.places.get(image.record.path.as_str()) {
                    Some(place) => Some(*place),
                    None => None,
                };
                match found {
                    Some(place) => {
                        merged.images[place] = image.clone();
                        proof {
                            assert(measured_for(seen, image@.path) is Some);
                            assert(measured_paths(next) == measured_paths(seen));
                            assert(analyzed_views(old_merged.images@).len() == fresh_records(
                                seen,
                            ).len());
                            lemma_replaced(seen, next, image@, place as int);
                            assert(analyzed_views(merged.images@) =~= fresh_records(next));
                        }
                    },
                    None => {
                        merged.places.insert(image.record.path.clone(), merged.images.len());
                        merged.images.push(image.clone());
                        proof {
                            assert(measured_for(seen, image@.path) is None);
                            lemma_added(seen, next, image@);
                            assert(analyzed_views(merged.images@) =~= fresh_records(next));
                        }
                    },
                }
            },
            AnalysisOutcome::Cancelled => {
                merged.cancelled = true;
                assert(next[i as int] is Cancelled);
            },
            AnalysisOutcome::Failed => {
                merged.failures = merged.failures + 1;
            },
        }
        proof {
            assert(analysis_cancelled(next) <==> analysis_cancelled(seen)
                || outcomes@[i as int] is Cancelled) by {
                if analysis_cancelled(seen) {
                    let k = choose|k: int| 0 <= k < seen.len() && (#[trigger] seen[k]) is Cancelled;
                    assert(next[k] is Cancelled);
                }
                if analysis_cancelled(next) {
                    let k = choose|k: int| 0 <= k < next.len() && (#[trigger] next[k]) is Cancelled;
                    if k < i {
                        assert(seen[k] is Cancelled);
                    }
                }
                if outcomes@[i as int] is Cancelled {
                    assert(next[i as int] is Cancelled);
                }
            }
            assert forall|path: Seq<char>|
                #![trigger merged.places@.contains_key(path)]
                #![trigger measured_for(next, path)]
                match measured_for(next, path) {
                    Some(measured) => merged.places@.contains_key(path) && merged.places@[path]
                        < merged.images@.len() && merged.images@[merged.places@[path] as int]@
                        == measured && measured_paths(next)[merged.places@[path] as int] == path,
                    None => !merged.places@.contains_key(path),
                } by {
                assert(measured_for(seen, path) == measured_for(seen, path));
                assert(old_merged.places@.contains_key(path) == old_merged.places@.contains_key(
                    path,
                ));
                assert(analyzed_views(old_merged.images@).len() == measured_paths(seen).len());
                assert(analyzed_views(merged.images@) == fresh_records(next)) by {
                    if !(outcomes@[i as int] is Analyzed) {
                        assert(fresh_records(next) =~= fresh_records(seen)) by {
                            lemma_unchanged(seen, next);
                        }
                    }
                }
            }
            if !(outcomes@[i as int] is Analyzed) {
                lemma_unchanged(seen, next);
            }
        }
        i = i + 1;
    }
    assert(outcomes@.take(i as int) =~= outcomes@);
    merged
}

/// An outcome without an image changes nothing that was measured.
proof fn lemma_unchanged(seen: Seq<AnalysisOutcome>, next: Seq<AnalysisOutcome>)
    requires
        next.len() > 0,
        next.drop_last() == seen,
        !(next.last() is Analyzed),
    ensures
        fresh_records(next) == fresh_records(seen),
{
    assert(measured_paths(next) == measured_paths(seen));
    assert forall|k: int| 0 <= k < measured_paths(seen).len() implies fresh_records(next)[k]
        == fresh_records(seen)[k] by {
        assert(measured_for(next, measured_paths(seen)[k]) == measured_for(
            seen,
            measured_paths(seen)[k],
        ));
    }
    assert(fresh_records(next) =~= fresh_records(seen));
}

/// A second image for a path takes the place of the first.
proof fn lemma_replaced(
    seen: Seq<AnalysisOutcome>,
    next: Seq<AnalysisOutcome>,
    image: RecordView,
    place: int,
)
    requires
        next.len() > 0,
        next.drop_last() == seen,
        next.last() matches AnalysisOutcome::Analyzed(last) && last@ == image,
        measured_paths(next) == measured_paths(seen),
        measured_paths(seen).no_duplicates(),
        0 <= place < measured_paths(seen).len(),
        measured_paths(seen)[place] == image.path,
    ensures
        fresh_records(next) == fresh_records(seen).update(place, image),
{
    let paths = measured_paths(seen);
    assert forall|k: int| 0 <= k < paths.len() implies fresh_records(next)[k]
        == fresh_records(seen).update(place, image)[k] by {
        assert(measured_for(next, paths[k]) == if paths[k] == image.path {
            Some(image)
        } else {
            measured_for(seen, paths[k])
        });
    }
    assert(fresh_records(next) =~= fresh_records(seen).update(place, image));
}

/// The first image for a path comes behind the others.
proof fn lemma_added(
    seen: Seq<AnalysisOutcome>,
    next: Seq<AnalysisOutcome>,
    image: RecordView,
)
    requires
        next.len() > 0,
        next.drop_last() == seen,
        next.last() matches AnalysisOutcome::Analyzed(last) && last@ == image,
        !measured_paths(seen).contains(image.path),
    ensures
        fresh_records(next) == fresh_records(seen).push(image),
        measured_paths(next) == measured_paths(seen).push(image.path),
{
    let paths = measured_paths(seen);
    assert forall|k: int| 0 <= k < paths.len() implies fresh_records(next)[k] == fresh_records(
        seen,
    )[k] by {
        assert(paths[k] != image.path);
        assert(measured_for(next, paths[k]) == measured_for(seen, paths[k]));
    }
    assert(measured_for(next, image.path) == Some(image));
    assert(fresh_records(next) =~= fresh_records(seen).push(image));
}

/// What is shown of the blurry ones among images.
fn blurry_among(images: &[AnalyzedImage]) -> (items: Vec<ImageItem>)
    ensures
        item_views(items@) == blurry_items(analyzed_views(images@)),
{
    let ghost views = analyzed_views(images@);
    let mut items: Vec<ImageItem> = Vec::new();
    let mut i: usize = 0;
    proof {
        reveal(Seq::filter);
        assert(views.take(0) =~= Seq::empty());
        assert(item_views(items@) =~= blurry_items(views.take(0)));
    }
    while i < images.len()
        invariant
            i <= images@.len(),
            views == analyzed_views(images@),
            item_views(items@) == blurry_items(views.take(i as int)),
        decreases images@.len() - i,
    {
        let ghost before = items@;
        proof {
            reveal(Seq::filter);
            assert(views.take(i + 1).drop_last() =~= views.take(i as int));
            assert(views.take(i + 1).last() == images@[i as int]@);
        }
        let blurry: bool = match images[i].record.blur_score {
            Some(score) => is_blurry(score),
            None => false,
        };
        if blurry {
            let item: ImageItem = images[i].item();
            let ghost added = item@;
            items.push(item);
            assert(item_views(items@) =~= item_views(before).push(added));
            assert(blurry_items(views.take(i + 1)) =~= blurry_items(views.take(i as int)).push(
                added,
            ));
        }
        i = i + 1;
    }
    assert(views.take(i as int) =~= views);
    items
}

/// A scan takes up what an earlier one has kept: a file that has not changed since is known
/// from the cache file exactly as it was written there.
pub proof fn law_kept_results_are_taken_up(
    records: Seq<RecordView>,
    score_texts: Seq<Seq<char>>,
    scores: Seq<Option<u64>>,
    file: FoundFile,
)
    requires
        forall|k: int| 0 <= k < records.len() ==> is_storable(#[trigger] records[k]),
        forall|k: int|
            0 <= k < records.len() && (#[trigger] records[k]).blur_score is Some ==> is_score_text(
                entry_or(score_texts, k, Seq::empty()),
            ),
        forall|k: int|
            0 <= k < records.len() ==> entry_or(scores, k, None) == (#[trigger] records[k]).blur_score,
        file.facts is Some,
        by_path(records).contains_key(file.path@),
        by_path(records)[file.path@].size_bytes == file.facts->0.size_bytes,
        by_path(records)[file.path@].modified_at == file.facts->0.modified_at,
    ensures
        is_known(file, loaded(cache_text(records, score_texts), scores)),
        known_record(file, loaded(cache_text(records, score_texts), scores)) == by_path(
            records,
        )[file.path@],
{
    law_cache_round_trip(records, score_texts, scores);
}

/// A file that has changed, or that the cache does not know, is looked at anew.
pub proof fn law_changed_file_starts_anew(file: FoundFile, cache: Map<Seq<char>, RecordView>)
    requires
        file.facts is Some,
        !cache.contains_key(file.path@) || cache[file.path@].size_bytes != file.facts->0.size_bytes
            || cache[file.path@].modified_at != file.facts->0.modified_at,
    ensures
        !is_detailed(known_record(file, cache)),
        known_record(file, cache).content_hash.len() == 0,
        known_record(file, cache).path == file.path@,
{
}

/// Every file is either known or skipped, and no more files are known from the cache than
/// are known.
pub proof fn law_files_are_counted(
    files: Seq<FoundFile>,
    cache: Map<Seq<char>, RecordView>,
    n: nat,
)
    requires
        n <= files.len(),
    ensures
        known_count(files, cache, n) <= known_records(files, cache, n).len() <= n,
    decreases n,
{
    if n > 0 {
        law_files_are_counted(files, cache, (n - 1) as nat);
    }
}

/// A scan in which each image to be measured has one outcome at most can count them all.
pub proof fn law_outcomes_can_be_counted(stage: AnalysisStage, outcomes: Seq<AnalysisOutcome>)
    requires
        stage.well_formed(),
        outcomes.len() <= stage.detail_targets@.len(),
    ensures
        stage.skipped_count + outcomes.len() <= stage.total,
        stage.skipped_count + failure_count(outcomes) <= stage.total,
{
    lemma_failures_within(outcomes);
}

proof fn lemma_failures_within(outcomes: Seq<AnalysisOutcome>)
    ensures
        failure_count(outcomes) <= outcomes.len(),
    decreases outcomes.len(),
{
    if outcomes.len() > 0 {
        lemma_failures_within(outcomes.drop_last());
    }
}

/// No image that is shown as an exact duplicate is measured or compared again.
pub proof fn law_duplicates_are_left_out(
    options: ScanOptions,
    records: Seq<RecordView>,
    duplicates: Set<Seq<char>>,
    measured: bool,
)
    ensures
        forall|k: int|
            0 <= k < left_records(options, records, duplicates, measured).len()
                ==> !duplicates.contains(
                (#[trigger] left_records(options, records, duplicates, measured)[k]).path,
            ),
{
    broadcast use vstd::seq_lib::group_filter_ensures;

    let keep = |record: RecordView| is_left(options, duplicates, measured, record);
    assert forall|k: int|
        0 <= k < left_records(
            options,
            records,
            duplicates,
            measured,
        ).len() implies !duplicates.contains(
        (#[trigger] left_records(options, records, duplicates, measured)[k]).path,
    ) by {
        assert(keep(records.filter(keep)[k]));
    }
}

/// No image is measured again once all that is asked for was measured in it, and none is
/// compared before.
pub proof fn law_images_are_measured_once(
    options: ScanOptions,
    records: Seq<RecordView>,
    duplicates: Set<Seq<char>>,
    measured: bool,
)
    ensures
        forall|k: int|
            0 <= k < left_records(options, records, duplicates, measured).len() ==> is_measured(
                options,
                #[trigger] left_records(options, records, duplicates, measured)[k],
            ) == measured,
{
    broadcast use vstd::seq_lib::group_filter_ensures;

    let keep = |record: RecordView| is_left(options, duplicates, measured, record);
    assert forall|k: int|
        0 <= k < left_records(
            options,
            records,
            duplicates,
            measured,
        ).len() implies is_measured(
        options,
        #[trigger] left_records(options, records, duplicates, measured)[k],
    ) == measured by {
        assert(keep(records.filter(keep)[k]));
    }
}

/// Where blur is asked for, every image that is not shown as an exact duplicate has a score,
/// or is handed out to be measured, whatever an earlier scan has left.
pub proof fn law_every_image_gets_a_score(
    options: ScanOptions,
    records: Seq<RecordView>,
    duplicates: Set<Seq<char>>,
    i: int,
)
    requires
        options.detect_blurry_images,
        0 <= i < records.len(),
        !duplicates.contains(records[i].path),
    ensures
        records[i].blur_score is Some || left_records(
            options,
            records,
            duplicates,
            false,
        ).contains(records[i]),
{
    law_every_record_is_handled(options, records, duplicates, i);
    law_images_are_measured_once(options, records, duplicates, true);
    let known = left_records(options, records, duplicates, true);
    if known.contains(records[i]) {
        let k = choose|k: int| 0 <= k < known.len() && known[k] == records[i];
        assert(is_measured(options, known[k]));
    }
}

/// Every image that is not shown as an exact duplicate is compared, if it was measured now, or
/// was described by an earlier scan: as it was measured now, or else as it was described.
pub proof fn law_described_images_are_compared(
    options: ScanOptions,
    records: Seq<RecordView>,
    duplicates: Set<Seq<char>>,
    outcomes: Seq<AnalysisOutcome>,
    i: int,
)
    requires
        0 <= i < records.len(),
        !duplicates.contains(records[i].path),
    ensures
        match measured_for(outcomes, records[i].path) {
            Some(measured) => images_of_scan(options, records, duplicates, outcomes).contains(
                measured,
            ),
            None => is_detailed(records[i]) ==> images_of_scan(
                options,
                records,
                duplicates,
                outcomes,
            ).contains(records[i]),
        },
{
    broadcast use vstd::seq_lib::group_filter_ensures;

    let known = left_records(options, records, duplicates, true);
    let targets = left_records(options, records, duplicates, false);
    let fresh = fresh_records(outcomes);
    let described = still_described(targets, outcomes);
    let images = images_of_scan(options, records, duplicates, outcomes);
    lemma_measured_paths(outcomes);
    if let Some(measured) = measured_for(outcomes, records[i].path) {
        let paths = measured_paths(outcomes);
        assert(paths.contains(records[i].path));
        let k = choose|k: int| 0 <= k < paths.len() && paths[k] == records[i].path;
        assert(fresh[k] == measured);
        assert(images[known.len() + k] == measured);
    } else if is_detailed(records[i]) {
        law_every_record_is_handled(options, records, duplicates, i);
        if known.contains(records[i]) {
            let k = choose|k: int| 0 <= k < known.len() && known[k] == records[i];
            assert(images[k] == records[i]);
        } else {
            let keep = |record: RecordView| is_still_described(record, outcomes);
            let k = choose|k: int| 0 <= k < targets.len() && targets[k] == records[i];
            assert(keep(targets[k]));
            assert(targets.filter(keep).contains(targets[k]));
            let m = choose|m: int| 0 <= m < described.len() && described[m] == records[i];
            assert(images[known.len() + fresh.len() + m] == records[i]);
        }
    }
}

/// Where blur is asked for, a file that is not shown as an exact duplicate is listed as
/// blurry if its image is: by the score it was measured with now, or else by the one it had.
pub proof fn law_blurry_file_is_listed(
    options: ScanOptions,
    records: Seq<RecordView>,
    duplicates: Set<Seq<char>>,
    outcomes: Seq<AnalysisOutcome>,
    i: int,
)
    requires
        0 <= i < records.len(),
        !duplicates.contains(records[i].path),
        match measured_for(outcomes, records[i].path) {
            Some(measured) => looks_blurry(measured),
            None => is_detailed(records[i]) && looks_blurry(records[i]),
        },
    ensures
        exists|item: ItemView| #[trigger]
            blurry_items(images_of_scan(options, records, duplicates, outcomes)).contains(item)
                && item.path == records[i].path,
{
    let images = images_of_scan(options, records, duplicates, outcomes);
    lemma_measured_paths(outcomes);
    law_described_images_are_compared(options, records, duplicates, outcomes, i);
    let image = match measured_for(outcomes, records[i].path) {
        Some(measured) => measured,
        None => records[i],
    };
    let k = choose|k: int| 0 <= k < images.len() && images[k] == image;
    assert(looks_blurry(images[k]));
    assert(is_blurry_item(images, item_of(image)));
    law_blurry_images_are_listed(images, item_of(image));
}

/// Whether a path is that of one of some records.
pub open spec fn has_path(records: Seq<RecordView>, path: Seq<char>) -> bool {
    exists|i: int| 0 <= i < records.len() && (#[trigger] records[i]).path == path
}

/// Whether only images that were to be measured were measured.
pub open spec fn measures_targets(
    targets: Seq<RecordView>,
    outcomes: Seq<AnalysisOutcome>,
) -> bool {
    forall|k: int|
        0 <= k < outcomes.len() ==> ((#[trigger] outcomes[k]) matches AnalysisOutcome::Analyzed(
            image,
        ) ==> has_path(targets, image@.path))
}

proof fn lemma_measured_target(
    targets: Seq<RecordView>,
    outcomes: Seq<AnalysisOutcome>,
    path: Seq<char>,
)
    requires
        measures_targets(targets, outcomes),
    ensures
        measured_for(outcomes, path) is Some ==> has_path(targets, path),
    decreases outcomes.len(),
{
    if outcomes.len() > 0 {
        let shorter = outcomes.drop_last();
        assert forall|k: int| 0 <= k < shorter.len() implies ((
        #[trigger] shorter[k]) matches AnalysisOutcome::Analyzed(image) ==> has_path(
            targets,
            image@.path,
        )) by {
            assert(shorter[k] == outcomes[k]);
        }
        lemma_measured_target(targets, shorter, path);
        assert(outcomes.last() == outcomes[outcomes.len() - 1]);
    }
}

/// No image that is compared is shown as an exact duplicate.
proof fn lemma_compared_are_no_duplicates(
    options: ScanOptions,
    records: Seq<RecordView>,
    duplicates: Set<Seq<char>>,
    outcomes: Seq<AnalysisOutcome>,
    k: int,
)
    requires
        measures_targets(left_records(options, records, duplicates, false), outcomes),
        0 <= k < images_of_scan(options, records, duplicates, outcomes).len(),
    ensures
        !duplicates.contains(images_of_scan(options, records, duplicates, outcomes)[k].path),
{
    let known = left_records(options, records, duplicates, true);
    let targets = left_records(options, records, duplicates, false);
    let fresh = fresh_records(outcomes);
    let described = still_described(targets, outcomes);
    let images = images_of_scan(options, records, duplicates, outcomes);
    law_duplicates_are_left_out(options, records, duplicates, true);
    law_duplicates_are_left_out(options, records, duplicates, false);
    if k < known.len() {
        assert(images[k] == known[k]);
    } else if k < known.len() + fresh.len() {
        let path = measured_paths(outcomes)[k - known.len()];
        lemma_measured_paths(outcomes);
        lemma_measured_target(targets, outcomes, path);
        assert(measured_paths(outcomes).contains(path));
        assert(measured_for(outcomes, path) is Some);
        assert(images[k] == fresh[k - known.len()]);
        let m = choose|m: int| 0 <= m < targets.len() && (#[trigger] targets[m]).path == path;
        assert(!duplicates.contains(targets[m].path));
    } else {
        let keep = |record: RecordView| is_still_described(record, outcomes);
        assert(images[k] == described[k - known.len() - fresh.len()]);
        let m = lemma_filter_within(targets, keep, k - known.len() - fresh.len());
        assert(!duplicates.contains(targets[m].path));
    }
}

/// A file that is shown as an exact duplicate is shown neither among the images that look
/// alike nor among the blurry ones.
pub proof fn law_duplicates_are_shown_once(
    options: ScanOptions,
    records: Seq<RecordView>,
    outcomes: Seq<AnalysisOutcome>,
    similar: Seq<GroupView>,
    path: Seq<char>,
)
    requires
        group_paths(planned_groups(options, records)).contains(path),
        measures_targets(
            left_records(options, records, group_paths(planned_groups(options, records)), false),
            outcomes,
        ),
        are_similar_groups(
            images_of_scan(
                options,
                records,
                group_paths(planned_groups(options, records)),
                outcomes,
            ),
            similar,
        ),
    ensures
        !group_paths(similar).contains(path),
        forall|item: ItemView| #[trigger]
            blurry_items(
                images_of_scan(
                    options,
                    records,
                    group_paths(planned_groups(options, records)),
                    outcomes,
                ),
            ).contains(item) ==> item.path != path,
{
    let duplicates = group_paths(planned_groups(options, records));
    let images = images_of_scan(options, records, duplicates, outcomes);
    assert forall|k: int| 0 <= k < images.len() implies (#[trigger] images[k]).path != path by {
        lemma_compared_are_no_duplicates(options, records, duplicates, outcomes, k);
    }
    let places = law_similar_groups_are_components(images, similar);
    if group_paths(similar).contains(path) {
        let (g, k) = choose|g: int, k: int|
            0 <= g < similar.len() && 0 <= k < similar[g].items.len() && (
            #[trigger] similar[g].items[k]).path == path;
        assert(similar[g].items == places[g].map_values(|i: int| item_of(images[i])));
        assert(0 <= places[g][k] < images.len());
        assert(images[places[g][k]].path == path);
    }
    assert forall|item: ItemView| #[trigger]
        blurry_items(images).contains(item) implies item.path != path by {
        law_blurry_images_are_listed(images, item);
        let i = choose|i: int|
            0 <= i < images.len() && looks_blurry(#[trigger] images[i]) && item_of(images[i])
                == item;
        assert(images[i].path != path);
    }
}

/// Whether an item is that of a blurry one among images.
pub open spec fn is_blurry_item(images: Seq<RecordView>, item: ItemView) -> bool {
    exists|i: int|
        0 <= i < images.len() && looks_blurry(#[trigger] images[i]) && item_of(images[i]) == item
}

/// Of images, exactly those with a score below the threshold are listed as blurry.
pub proof fn law_blurry_images_are_listed(images: Seq<RecordView>, item: ItemView)
    ensures
        blurry_items(images).contains(item) <==> is_blurry_item(images, item),
    decreases images.len(),
{
    reveal(Seq::filter);
    let listed = blurry_items(images);
    if images.len() > 0 {
        let shorter = images.drop_last();
        let before = blurry_items(shorter);
        let last = images[images.len() - 1];
        law_blurry_images_are_listed(shorter, item);
        assert(listed =~= if looks_blurry(last) {
            before.push(item_of(last))
        } else {
            before
        });
        if before.contains(item) {
            let k = choose|k: int| 0 <= k < before.len() && before[k] == item;
            assert(listed[k] == item);
            let i = choose|i: int|
                0 <= i < shorter.len() && looks_blurry(#[trigger] shorter[i]) && item_of(shorter[i])
                    == item;
            assert(images[i] == shorter[i]);
        }
        if listed.contains(item) && !before.contains(item) {
            let k = choose|k: int| 0 <= k < listed.len() && listed[k] == item;
            assert(k == before.len());
        }
        if is_blurry_item(images, item) && !before.contains(item) {
            let i = choose|i: int|
                0 <= i < images.len() && looks_blurry(#[trigger] images[i]) && item_of(images[i])
                    == item;
            if i < shorter.len() {
                assert(shorter[i] == images[i]);
            }
            assert(listed[listed.len() - 1] == item);
        }
    }
}

/// Every record is shown as an exact duplicate, or was measured before, or is to be measured.
pub proof fn law_every_record_is_handled(
    options: ScanOptions,
    records: Seq<RecordView>,
    duplicates: Set<Seq<char>>,
    i: int,
)
    requires
        0 <= i < records.len(),
    ensures
        duplicates.contains(records[i].path) || left_records(
            options,
            records,
            duplicates,
            true,
        ).contains(records[i]) || left_records(options, records, duplicates, false).contains(
            records[i],
        ),
{
    broadcast use vstd::seq_lib::group_filter_ensures;

    let measured = |record: RecordView| is_left(options, duplicates, true, record);
    let unmeasured = |record: RecordView| is_left(options, duplicates, false, record);
    if !duplicates.contains(records[i].path) {
        if is_measured(options, records[i]) {
            assert(measured(records[i]));
            assert(records.filter(measured).contains(records[i]));
        } else {
            assert(unmeasured(records[i]));
            assert(records.filter(unmeasured).contains(records[i]));
        }
    }
}

/// Two records with the same hash are both left out of what is measured and compared.
pub proof fn law_same_hash_is_not_compared(
    options: ScanOptions,
    records: Seq<RecordView>,
    i: int,
    j: int,
    measured: bool,
)
    requires
        options.detect_exact_duplicates,
        0 <= i < records.len(),
        0 <= j < records.len(),
        i != j,
        records[i].content_hash == records[j].content_hash,
        records[i].content_hash.len() > 0,
    ensures
        !left_records(
            options,
            records,
            group_paths(planned_groups(options, records)),
            measured,
        ).contains(records[i]),
{
    let groups = planned_groups(options, records);
    let duplicates = group_paths(groups);
    law_same_hash_shares_a_group(records, i, j);
    let group = exact_group(records, records[i].content_hash);
    let g = choose|g: int| 0 <= g < groups.len() && groups[g] == group;
    let k = choose|k: int| 0 <= k < group.items.len() && group.items[k] == item_of(records[i]);
    assert(groups[g].items[k].path == records[i].path);
    assert(duplicates.contains(records[i].path));
    law_duplicates_are_left_out(options, records, duplicates, measured);
    let left = left_records(options, records, duplicates, measured);
    if left.contains(records[i]) {
        let m = choose|m: int| 0 <= m < left.len() && left[m] == records[i];
        assert(!duplicates.contains(left[m].path));
    }
}

/// Hashing and measuring change neither the number of the records nor their paths.
pub proof fn law_paths_are_kept(
    records: Seq<RecordView>,
    hashes: Seq<HashOutcome>,
    measures: Seq<AnalysisOutcome>,
)
    ensures
        with_hashes(records, hashes).len() == records.len(),
        with_measures(records, measures).len() == records.len(),
        forall|i: int|
            0 <= i < records.len() ==> (#[trigger] with_hashes(records, hashes)[i]).path
                == records[i].path,
        forall|i: int|
            0 <= i < records.len() ==> (#[trigger] with_measures(records, measures)[i]).path
                == records[i].path,
{
    lemma_measured_paths(measures);
    assert forall|i: int| 0 <= i < records.len() implies (#[trigger] with_measures(
        records,
        measures,
    )[i]).path == records[i].path by {
        assert(with_measures(records, measures)[i] == with_measure(records[i], measures));
    }
}

/// What a scan knows of its files can be kept, if what the cache holds can be.
pub proof fn law_known_records_are_storable(
    files: Seq<FoundFile>,
    cache: Map<Seq<char>, RecordView>,
    n: nat,
)
    requires
        n <= files.len(),
        forall|path: Seq<char>| #[trigger] cache.contains_key(path) ==> is_storable(cache[path]),
    ensures
        forall|k: int|
            0 <= k < known_records(files, cache, n).len() ==> is_storable(
                #[trigger] known_records(files, cache, n)[k],
            ),
    decreases n,
{
    if n > 0 {
        law_known_records_are_storable(files, cache, (n - 1) as nat);
        let before = known_records(files, cache, (n - 1) as nat);
        assert forall|k: int| 0 <= k < known_records(files, cache, n).len() implies is_storable(
            #[trigger] known_records(files, cache, n)[k],
        ) by {
            if k < before.len() {
                assert(known_records(files, cache, n)[k] == before[k]);
            } else if is_known(files[n - 1], cache) {
                assert(cache.contains_key(files[n - 1].path@));
            }
        }
    }
}

/// Records that can be kept can still be kept once they have hashes without tabs and line
/// feeds, and once they are replaced by measured records that can be kept.
pub proof fn law_records_stay_storable(
    records: Seq<RecordView>,
    hashes: Seq<HashOutcome>,
    measures: Seq<AnalysisOutcome>,
)
    requires
        forall|k: int| 0 <= k < records.len() ==> is_storable(#[trigger] records[k]),
        forall|k: int|
            0 <= k < hashes.len() ==> ((#[trigger] hashes[k]) matches HashOutcome::Hashed {
                hash,
                ..
            } ==> !hash@.contains('\t') && !hash@.contains('\n')),
        forall|k: int|
            0 <= k < measures.len() ==> ((#[trigger] measures[k]) matches AnalysisOutcome::Analyzed(
                image,
            ) ==> is_storable(image@)),
    ensures
        forall|k: int|
            0 <= k < records.len() ==> is_storable(#[trigger] with_hashes(records, hashes)[k]),
        forall|k: int|
            0 <= k < records.len() ==> is_storable(#[trigger] with_measures(records, measures)[k]),
{
    assert forall|k: int| 0 <= k < records.len() implies is_storable(
        #[trigger] with_hashes(records, hashes)[k],
    ) by {
        assert(with_hashes(records, hashes)[k] == with_hash(records[k], hashes));
        lemma_found_hash_plain(hashes, records[k].path);
    }
    assert forall|k: int| 0 <= k < records.len() implies is_storable(
        #[trigger] with_measures(records, measures)[k],
    ) by {
        assert(with_measures(records, measures)[k] == with_measure(records[k], measures));
        lemma_measured_storable(measures, records[k].path);
    }
}

proof fn lemma_found_hash_plain(outcomes: Seq<HashOutcome>, path: Seq<char>)
    requires
        forall|k: int|
            0 <= k < outcomes.len() ==> ((#[trigger] outcomes[k]) matches HashOutcome::Hashed {
                hash,
                ..
            } ==> !hash@.contains('\t') && !hash@.contains('\n')),
    ensures
        hash_for(outcomes, path) matches Some(hash) ==> !hash.contains('\t') && !hash.contains(
            '\n',
        ),
    decreases outcomes.len(),
{
    if outcomes.len() > 0 {
        let shorter = outcomes.drop_last();
        assert forall|k: int| 0 <= k < shorter.len() implies ((
        #[trigger] shorter[k]) matches HashOutcome::Hashed { hash, .. } ==> !hash@.contains('\t')
            && !hash@.contains('\n')) by {
            assert(shorter[k] == outcomes[k]);
        }
        lemma_found_hash_plain(shorter, path);
        assert(outcomes.last() == outcomes[outcomes.len() - 1]);
    }
}

proof fn lemma_measured_storable(outcomes: Seq<AnalysisOutcome>, path: Seq<char>)
    requires
        forall|k: int|
            0 <= k < outcomes.len() ==> ((#[trigger] outcomes[k]) matches AnalysisOutcome::Analyzed(
                image,
            ) ==> is_storable(image@)),
    ensures
        measured_for(outcomes, path) matches Some(measured) ==> is_storable(measured),
    decreases outcomes.len(),
{
    if outcomes.len() > 0 {
        let shorter = outcomes.drop_last();
        assert forall|k: int| 0 <= k < shorter.len() implies ((
        #[trigger] shorter[k]) matches AnalysisOutcome::Analyzed(image) ==> is_storable(
            image@,
        )) by {
            assert(shorter[k] == outcomes[k]);
        }
        lemma_measured_storable(shorter, path);
        assert(outcomes.last() == outcomes[outcomes.len() - 1]);
    }
}

/// Of images, those with a blur score below the threshold are listed, whatever else is known
/// of them, and no others. They are listed in the order of the images.
pub proof fn law_blurry_list_goes_by_the_score_alone(images: Seq<RecordView>)
    ensures
        blurry_items(images) == images.filter(
            |image: RecordView| image.blur_score is Some && is_blurry_score(image.blur_score->0),
        ).map_values(|image: RecordView| item_of(image)),
        forall|i: int|
            0 <= i < images.len() && (#[trigger] images[i]).blur_score is Some && is_blurry_score(
                images[i].blur_score->0,
            ) ==> blurry_items(images).contains(item_of(images[i])),
        forall|item: ItemView| #[trigger]
            blurry_items(images).contains(item) ==> exists|i: int|
                0 <= i < images.len() && (#[trigger] images[i]).blur_score is Some
                    && is_blurry_score(images[i].blur_score->0) && item_of(images[i]) == item,
{
    let scored = |image: RecordView|
        image.blur_score is Some && is_blurry_score(image.blur_score->0);
    let chosen = |image: RecordView| looks_blurry(image);
    lemma_filter_same(images, chosen, scored);
    assert(blurry_items(images) =~= images.filter(scored).map_values(
        |image: RecordView| item_of(image),
    ));
    assert forall|i: int|
        0 <= i < images.len() && (#[trigger] images[i]).blur_score is Some && is_blurry_score(
            images[i].blur_score->0,
        ) implies blurry_items(images).contains(item_of(images[i])) by {
        assert(looks_blurry(images[i]));
        assert(is_blurry_item(images, item_of(images[i])));
        law_blurry_images_are_listed(images, item_of(images[i]));
    }
    assert forall|item: ItemView| #[trigger] blurry_items(images).contains(item) implies exists|
        i: int,
    |
        0 <= i < images.len() && (#[trigger] images[i]).blur_score is Some && is_blurry_score(
            images[i].blur_score->0,
        ) && item_of(images[i]) == item by {
        law_blurry_images_are_listed(images, item);
        let i = choose|i: int|
            0 <= i < images.len() && looks_blurry(#[trigger] images[i]) && item_of(images[i])
                == item;
        assert(images[i].blur_score is Some);
    }
}

/// Of the entries of a folder, the files with the path of an image are found: at any depth
/// with subfolders, and at depth one at most without. Nothing else is found, and the places
/// stand in order.
pub proof fn law_images_are_found_at_every_depth(
    entries: Seq<FolderEntry>,
    include_subfolders: bool,
    n: nat,
)
    requires
        n <= entries.len(),
    ensures
        forall|k: int|
            0 <= k < n ==> (image_places(entries, include_subfolders, n).contains(k)
                <==> entries[k].is_file && is_image_path((#[trigger] entries[k]).path@) && (
            include_subfolders || entries[k].depth <= 1)),
        forall|k: int|
            0 <= k < image_places(entries, include_subfolders, n).len() ==> 0 <= (
            #[trigger] image_places(entries, include_subfolders, n)[k]) < n,
        forall|k: int, m: int|
            0 <= k < m < image_places(entries, include_subfolders, n).len() ==> image_places(
                entries,
                include_subfolders,
                n,
            )[k] < image_places(entries, include_subfolders, n)[m],
    decreases n,
{
    if n > 0 {
        law_images_are_found_at_every_depth(entries, include_subfolders, (n - 1) as nat);
        let all = image_places(entries, include_subfolders, n);
        let shorter = image_places(entries, include_subfolders, (n - 1) as nat);
        assert forall|k: int| 0 <= k < n implies (all.contains(k) <==> entries[k].is_file
            && is_image_path((#[trigger] entries[k]).path@) && (include_subfolders
            || entries[k].depth <= 1)) by {
            if shorter.contains(k) {
                let m = choose|m: int| 0 <= m < shorter.len() && shorter[m] == k;
                assert(all[m] == k);
            }
            if all.contains(k) {
                let m = choose|m: int| 0 <= m < all.len() && all[m] == k;
                if m < shorter.len() {
                    assert(shorter[m] == k);
                }
            }
            if k == n - 1 && is_found_image(entries[k], include_subfolders) {
                assert(all[all.len() - 1] == k);
            }
        }
    }
}

/// The entries found are the files with the path of an image, at any depth with subfolders,
/// and at depth one at most without.
pub proof fn law_found_entries_are_image_files(entries: Seq<FolderEntry>)
    ensures
        found_images(entries, true) == entries.filter(
            |entry: FolderEntry| entry.is_file && is_image_path(entry.path@),
        ),
        found_images(entries, false) == entries.filter(
            |entry: FolderEntry| entry.is_file && is_image_path(entry.path@) && entry.depth <= 1,
        ),
        depth_limit_for(true) is None,
        depth_limit_for(false) == Some(1usize),
{
    lemma_filter_same(
        entries,
        |entry: FolderEntry| is_found_image(entry, true),
        |entry: FolderEntry| entry.is_file && is_image_path(entry.path@),
    );
    lemma_filter_same(
        entries,
        |entry: FolderEntry| is_found_image(entry, false),
        |entry: FolderEntry| entry.is_file && is_image_path(entry.path@) && entry.depth <= 1,
    );
}

/// How many workers there are: one less than the processors, within one and four. Where the
/// processors are not known, they count as four.
pub proof fn law_workers_for_processors(processors: usize)
    ensures
        worker_count(None) == 3,
        processors <= 2 ==> worker_count(Some(processors)) == 1,
        3 <= processors <= 4 ==> worker_count(Some(processors)) == processors - 1,
        processors >= 5 ==> worker_count(Some(processors)) == 4,
{
}

/// A chunk is no longer than it must be for the workers to get all items.
pub proof fn law_chunks_are_as_short_as_can_be(item_count: nat, available: Option<usize>)
    ensures
        chunk_length(item_count, available) >= 1,
        chunk_length(item_count, available) * worker_count(available) >= item_count,
        item_count > 0 ==> (chunk_length(item_count, available) - 1) * worker_count(available)
            < item_count,
        item_count == 0 ==> chunk_length(item_count, available) == 1,
{
    law_chunks_cover_all_items(item_count, available);
    let d = worker_count(available) as int;
    let n = item_count as int;
    let size = chunk_length(item_count, available);
    lemma_round_up(n, d);
    if n > 0 {
        assert(size == (n + d - 1) / d);
        assert((size - 1) * d < n) by (nonlinear_arith)
            requires
                d >= 1,
                size == (n + d - 1) / d,
        ;
    }
}

/// What is known of the files at the start of a scan: of each file that can be looked at, in
/// order, what the cache has for its path if the size and the time of change are the same,
/// and else nothing but these.
pub proof fn law_files_are_known_from_the_cache(
    files: Seq<FoundFile>,
    cache: Map<Seq<char>, RecordView>,
)
    ensures
        known_records(files, cache, files.len()) == files.filter(
            |file: FoundFile| file.facts is Some,
        ).map_values(
            |file: FoundFile|
                if cache.contains_key(file.path@) && cache[file.path@].size_bytes
                    == file.facts->0.size_bytes && cache[file.path@].modified_at
                    == file.facts->0.modified_at {
                    cache[file.path@]
                } else {
                    RecordView {
                        path: file.path@,
                        size_bytes: file.facts->0.size_bytes,
                        modified_at: file.facts->0.modified_at,
                        content_hash: Seq::empty(),
                        width: 0,
                        height: 0,
                        blur_score: None,
                        perceptual_hash: None,
                    }
                },
        ),
        known_count(files, cache, files.len()) == files.filter(
            |file: FoundFile|
                file.facts is Some && cache.contains_key(file.path@)
                    && cache[file.path@].size_bytes == file.facts->0.size_bytes
                    && cache[file.path@].modified_at == file.facts->0.modified_at,
        ).len(),
    decreases files.len(),
{
    reveal(Seq::filter);
    let seen = |file: FoundFile| file.facts is Some;
    let hit = |file: FoundFile|
        file.facts is Some && cache.contains_key(file.path@) && cache[file.path@].size_bytes
            == file.facts->0.size_bytes && cache[file.path@].modified_at
            == file.facts->0.modified_at;
    let record = |file: FoundFile|
        if cache.contains_key(file.path@) && cache[file.path@].size_bytes
            == file.facts->0.size_bytes && cache[file.path@].modified_at
            == file.facts->0.modified_at {
            cache[file.path@]
        } else {
            RecordView {
                path: file.path@,
                size_bytes: file.facts->0.size_bytes,
                modified_at: file.facts->0.modified_at,
                content_hash: Seq::empty(),
                width: 0,
                height: 0,
                blur_score: None,
                perceptual_hash: None,
            }
        };
    if files.len() == 0 {
        assert(known_records(files, cache, 0) =~= files.filter(seen).map_values(record));
    } else {
        let shorter = files.drop_last();
        let last = files[files.len() - 1];
        law_files_are_known_from_the_cache(shorter, cache);
        lemma_known_of_front(files, shorter, cache, shorter.len());
        let before = shorter.filter(seen);
        if last.facts is Some {
            assert(known_record(last, cache) =~= record(last));
            assert(before.push(last).map_values(record) =~= before.map_values(record).push(
                record(last),
            ));
        }
    }
}

proof fn lemma_known_of_front(
    files: Seq<FoundFile>,
    front: Seq<FoundFile>,
    cache: Map<Seq<char>, RecordView>,
    n: nat,
)
    requires
        n <= front.len() <= files.len(),
        forall|k: int| 0 <= k < front.len() ==> (#[trigger] front[k]) == files[k],
    ensures
        known_records(files, cache, n) == known_records(front, cache, n),
        known_count(files, cache, n) == known_count(front, cache, n),
    decreases n,
{
    if n > 0 {
        lemma_known_of_front(files, front, cache, (n - 1) as nat);
        assert(front[n - 1] == files[n - 1]);
    }
}

/// Exact duplicates are grouped where they are asked for, among all records.
pub proof fn law_duplicates_are_grouped_on_request(options: ScanOptions, records: Seq<RecordView>)
    ensures
        options.detect_exact_duplicates ==> planned_groups(options, records) == exact_groups(
            records,
        ),
        !options.detect_exact_duplicates ==> planned_groups(options, records).len() == 0,
{
}

/// What is left besides the exact duplicates, in order: the images in which a width, a height
/// and a hash are known, and a blur score too where blur is asked for, need no measuring, and
/// all others do.
pub proof fn law_what_is_left_to_measure(
    options: ScanOptions,
    records: Seq<RecordView>,
    duplicates: Set<Seq<char>>,
)
    ensures
        left_records(options, records, duplicates, true) == records.filter(
            |record: RecordView|
                !duplicates.contains(record.path) && record.width != 0 && record.height != 0
                    && record.perceptual_hash is Some && (record.blur_score is Some
                    || !options.detect_blurry_images),
        ),
        left_records(options, records, duplicates, false) == records.filter(
            |record: RecordView|
                !duplicates.contains(record.path) && (record.width == 0 || record.height == 0
                    || record.perceptual_hash is None || (record.blur_score is None
                    && options.detect_blurry_images)),
        ),
{
    lemma_filter_same(
        records,
        |record: RecordView| is_left(options, duplicates, true, record),
        |record: RecordView|
            !duplicates.contains(record.path) && record.width != 0 && record.height != 0
                && record.perceptual_hash is Some && (record.blur_score is Some
                || !options.detect_blurry_images),
    );
    lemma_filter_same(
        records,
        |record: RecordView| is_left(options, duplicates, false, record),
        |record: RecordView|
            !duplicates.contains(record.path) && (record.width == 0 || record.height == 0
                || record.perceptual_hash is None || (record.blur_score is None
                && options.detect_blurry_images)),
    );
}

/// Whether an outcome is a measurement for a path.
spec fn measures_path(outcome: AnalysisOutcome, path: Seq<char>) -> bool {
    outcome matches AnalysisOutcome::Analyzed(image) && image.record.path@ == path
}

proof fn lemma_last_measure(outcomes: Seq<AnalysisOutcome>, path: Seq<char>, k: int)
    requires
        -1 <= k < outcomes.len(),
        k >= 0 ==> measures_path(outcomes[k], path),
        forall|m: int| k < m < outcomes.len() ==> !measures_path(#[trigger] outcomes[m], path),
    ensures
        k >= 0 ==> measured_for(outcomes, path) == Some(outcomes[k]->Analyzed_0.record@),
        k < 0 ==> measured_for(outcomes, path) is None,
    decreases outcomes.len(),
{
    if outcomes.len() > 0 {
        let last = outcomes.len() - 1;
        let shorter = outcomes.drop_last();
        if k < last {
            assert forall|m: int| k < m < shorter.len() implies !measures_path(
                #[trigger] shorter[m],
                path,
            ) by {
                assert(shorter[m] == outcomes[m]);
            }
            if k >= 0 {
                assert(shorter[k] == outcomes[k]);
            }
            lemma_last_measure(shorter, path, k);
            assert(!measures_path(outcomes[last], path));
        }
    }
}

/// A record is replaced as a whole by the last that was measured for its path.
pub proof fn law_last_measure_is_kept(
    records: Seq<RecordView>,
    outcomes: Seq<AnalysisOutcome>,
    i: int,
    k: int,
)
    requires
        0 <= i < records.len(),
        0 <= k < outcomes.len(),
        outcomes[k] matches AnalysisOutcome::Analyzed(image) && image.record.path@
            == records[i].path,
        forall|m: int|
            k < m < outcomes.len() ==> !((#[trigger] outcomes[m]) matches AnalysisOutcome::Analyzed(
                image,
            ) && image.record.path@ == records[i].path),
    ensures
        with_measures(records, outcomes).len() == records.len(),
        with_measures(records, outcomes)[i] == outcomes[k]->Analyzed_0.record@,
        measured_for(outcomes, records[i].path) == Some(outcomes[k]->Analyzed_0.record@),
{
    assert forall|m: int| k < m < outcomes.len() implies !measures_path(
        #[trigger] outcomes[m],
        records[i].path,
    ) by {}
    lemma_last_measure(outcomes, records[i].path, k);
    assert(with_measures(records, outcomes)[i] == with_measure(records[i], outcomes));
}

/// A record for whose path nothing was measured stays as it is.
pub proof fn law_unmeasured_record_stays(
    records: Seq<RecordView>,
    outcomes: Seq<AnalysisOutcome>,
    i: int,
)
    requires
        0 <= i < records.len(),
        forall|m: int|
            0 <= m < outcomes.len() ==> !((#[trigger] outcomes[m]) matches AnalysisOutcome::Analyzed(
                image,
            ) && image.record.path@ == records[i].path),
    ensures
        with_measures(records, outcomes)[i] == records[i],
        measured_for(outcomes, records[i].path) is None,
{
    assert forall|m: int| -1 < m < outcomes.len() implies !measures_path(
        #[trigger] outcomes[m],
        records[i].path,
    ) by {}
    lemma_last_measure(outcomes, records[i].path, -1);
    assert(with_measures(records, outcomes)[i] == with_measure(records[i], outcomes));
}

/// What was measured last for a path is compared.
pub proof fn law_last_measure_is_compared(outcomes: Seq<AnalysisOutcome>, k: int)
    requires
        0 <= k < outcomes.len(),
        outcomes[k] is Analyzed,
        forall|m: int|
            k < m < outcomes.len() ==> !((#[trigger] outcomes[m]) matches AnalysisOutcome::Analyzed(
                image,
            ) && image.record.path@ == outcomes[k]->Analyzed_0.record.path@),
    ensures
        fresh_records(outcomes).contains(outcomes[k]->Analyzed_0.record@),
{
    let path = outcomes[k]->Analyzed_0.record.path@;
    assert forall|m: int| k < m < outcomes.len() implies !measures_path(
        #[trigger] outcomes[m],
        path,
    ) by {}
    lemma_last_measure(outcomes, path, k);
    lemma_measured_paths(outcomes);
    let paths = measured_paths(outcomes);
    assert(paths.contains(path));
    let a = choose|a: int| 0 <= a < paths.len() && paths[a] == path;
    assert(fresh_records(outcomes)[a] == outcomes[k]->Analyzed_0.record@);
}

/// What was measured is compared once for each path, as it was measured last.
pub proof fn law_measures_are_compared_once(outcomes: Seq<AnalysisOutcome>)
    ensures
        forall|a: int, b: int|
            0 <= a < b < fresh_records(outcomes).len() ==> (#[trigger] fresh_records(
                outcomes,
            )[a]).path != (#[trigger] fresh_records(outcomes)[b]).path,
        forall|a: int|
            0 <= a < fresh_records(outcomes).len() ==> measured_for(
                outcomes,
                (#[trigger] fresh_records(outcomes)[a]).path,
            ) == Some(fresh_records(outcomes)[a]),
{
    lemma_measured_paths(outcomes);
    let paths = measured_paths(outcomes);
    assert forall|a: int| 0 <= a < fresh_records(outcomes).len() implies measured_for(
        outcomes,
        (#[trigger] fresh_records(outcomes)[a]).path,
    ) == Some(fresh_records(outcomes)[a]) && fresh_records(outcomes)[a].path == paths[a] by {
        assert(paths.contains(paths[a]));
        assert(measured_for(outcomes, paths[a]) is Some);
    }
}

/// The images that are compared, in order: those that needed no measuring, those that were
/// measured, and those that nothing was measured for but whose width, height and hash are
/// known.
pub proof fn law_which_images_are_compared(
    analyzed: Seq<RecordView>,
    targets: Seq<RecordView>,
    outcomes: Seq<AnalysisOutcome>,
)
    ensures
        compared_images(analyzed, targets, outcomes) == analyzed + fresh_records(outcomes)
            + targets.filter(
            |record: RecordView|
                record.width != 0 && record.height != 0 && record.perceptual_hash is Some
                    && measured_for(outcomes, record.path) is None,
        ),
{
    lemma_filter_same(
        targets,
        |record: RecordView| is_still_described(record, outcomes),
        |record: RecordView|
            record.width != 0 && record.height != 0 && record.perceptual_hash is Some
                && measured_for(outcomes, record.path) is None,
    );
}

/// Each image that could not be read counts, and measuring counts as cancelled exactly if one
/// of its outcomes is that it was.
pub proof fn law_outcomes_are_counted(outcomes: Seq<AnalysisOutcome>, outcome: AnalysisOutcome)
    ensures
        failure_count(Seq::empty()) == 0,
        failure_count(outcomes.push(outcome)) == failure_count(outcomes) + if outcome
            == AnalysisOutcome::Failed {
            1nat
        } else {
            0nat
        },
        analysis_cancelled(outcomes) <==> outcomes.contains(AnalysisOutcome::Cancelled),
{
    assert(outcomes.push(outcome).drop_last() =~= outcomes);
    if analysis_cancelled(outcomes) {
        let i = choose|i: int| 0 <= i < outcomes.len() && (#[trigger] outcomes[i]) is Cancelled;
        assert(outcomes[i] == AnalysisOutcome::Cancelled);
    }
    if outcomes.contains(AnalysisOutcome::Cancelled) {
        let i = choose|i: int|
            0 <= i < outcomes.len() && outcomes[i] == AnalysisOutcome::Cancelled;
        assert(outcomes[i] is Cancelled);
    }
}

/// All that a scan asks for was measured exactly if a width, a height and a hash are known,
/// and a blur score too where blur is asked for.
pub proof fn law_when_all_was_measured(options: ScanOptions, record: RecordView)
    ensures
        is_measured(options, record) <==> record.width != 0 && record.height != 0
            && record.perceptual_hash is Some && (record.blur_score is Some
            || !options.detect_blurry_images),
{
}

/// A scan can be planned exactly if duplicates are not asked for, or the identifiers of all
/// their groups can be made.
pub proof fn law_when_a_scan_can_be_planned(stage: HashingStage)
    ensures
        stage.is_plannable() <==> !stage.options.detect_exact_duplicates || labels_defined(
            record_views(stage.records@),
        ),
{
}

} // verus!

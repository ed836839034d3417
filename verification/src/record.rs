//! What is known of one image file, and what is shown of it.
use std::collections::hash_map::DefaultHasher;

use vstd::prelude::*;
use vstd::std_specs::hash::DefaultHasherAdditionalSpecFns;
use vstd::utf8::is_ascii_chars;

use crate::numbers::{decimal, decimal_text, hexadecimal};
use crate::paths::{
    ascii_extension, extension_label, extension_of, file_name, file_name_text, hashed_pieces,
    label_extension, label_name, lowercase_text, name_label, optional_text, path_id, simple_name,
    stable_id,
};

verus! {

/// What is known of one image file. The blur score is a floating-point number; it is kept
/// as its 64-bit pattern.
#[derive(Debug)]
pub struct CacheRecord {
    pub path: String,
    pub size_bytes: u64,
    pub modified_at: u64,
    pub content_hash: String,
    pub width: u32,
    pub height: u32,
    pub blur_score: Option<u64>,
    pub perceptual_hash: Option<u64>,
}

/// The contents of a [`CacheRecord`].
#[verifier::ext_equal]
pub struct RecordView {
    pub path: Seq<char>,
    pub size_bytes: u64,
    pub modified_at: u64,
    pub content_hash: Seq<char>,
    pub width: u32,
    pub height: u32,
    pub blur_score: Option<u64>,
    pub perceptual_hash: Option<u64>,
}

/// What is shown of one image file.
#[derive(Debug)]
pub struct ImageItem {
    pub id: String,
    pub path: String,
    pub file_name: String,
    pub extension: String,
    pub size_bytes: u64,
    pub width: u32,
    pub height: u32,
    pub modified_at: String,
    pub blur_score: Option<u64>,
}

/// The contents of an [`ImageItem`].
#[verifier::ext_equal]
pub struct ItemView {
    pub id: Seq<char>,
    pub path: Seq<char>,
    pub file_name: Seq<char>,
    pub extension: Seq<char>,
    pub size_bytes: u64,
    pub width: u32,
    pub height: u32,
    pub modified_at: Seq<char>,
    pub blur_score: Option<u64>,
}

/// Images that belong together.
#[derive(Debug)]
pub struct ImageGroup {
    pub id: String,
    pub title: String,
    pub items: Vec<ImageItem>,
}

/// The contents of an [`ImageGroup`].
#[verifier::ext_equal]
pub struct GroupView {
    pub id: Seq<char>,
    pub title: Seq<char>,
    pub items: Seq<ItemView>,
}

/// An image that was read and measured.
#[derive(Debug)]
pub struct AnalyzedImage {
    pub record: CacheRecord,
}

impl View for CacheRecord {
    type V = RecordView;

    open spec fn view(&self) -> RecordView {
        RecordView {
            path: self.path@,
            size_bytes: self.size_bytes,
            modified_at: self.modified_at,
            content_hash: self.content_hash@,
            width: self.width,
            height: self.height,
            blur_score: self.blur_score,
            perceptual_hash: self.perceptual_hash,
        }
    }
}

impl View for ImageItem {
    type V = ItemView;

    open spec fn view(&self) -> ItemView {
        ItemView {
            id: self.id@,
            path: self.path@,
            file_name: self.file_name@,
            extension: self.extension@,
            size_bytes: self.size_bytes,
            width: self.width,
            height: self.height,
            modified_at: self.modified_at@,
            blur_score: self.blur_score,
        }
    }
}

impl View for ImageGroup {
    type V = GroupView;

    open spec fn view(&self) -> GroupView {
        GroupView { id: self.id@, title: self.title@, items: item_views(self.items@) }
    }
}

impl View for AnalyzedImage {
    type V = RecordView;

    open spec fn view(&self) -> RecordView {
        self.record@
    }
}

/// The contents of a list of records.
pub open spec fn record_views(records: Seq<CacheRecord>) -> Seq<RecordView> {
    records.map_values(|record: CacheRecord| record@)
}

/// The contents of a list of items.
pub open spec fn item_views(items: Seq<ImageItem>) -> Seq<ItemView> {
    items.map_values(|item: ImageItem| item@)
}

/// The contents of a list of groups.
pub open spec fn group_views(groups: Seq<ImageGroup>) -> Seq<GroupView> {
    groups.map_values(|group: ImageGroup| group@)
}

/// The contents of a list of analyzed images.
pub open spec fn analyzed_views(images: Seq<AnalyzedImage>) -> Seq<RecordView> {
    images.map_values(|image: AnalyzedImage| image@)
}

/// What is known of a file before it was read.
pub open spec fn basic_view(path: Seq<char>, size_bytes: u64, modified_at: u64) -> RecordView {
    RecordView {
        path,
        size_bytes,
        modified_at,
        content_hash: Seq::empty(),
        width: 0,
        height: 0,
        blur_score: None,
        perceptual_hash: None,
    }
}

/// Whether a file was read and measured.
pub open spec fn is_detailed(record: RecordView) -> bool {
    record.width > 0 && record.height > 0 && record.perceptual_hash is Some
}

/// What is shown of the file that a record is about, given its identifier and its file name.
pub open spec fn named_item(
    record: RecordView,
    id: Seq<char>,
    name: Option<Seq<char>>,
) -> ItemView {
    ItemView {
        id,
        path: record.path,
        file_name: name_label(name),
        extension: extension_label(name),
        size_bytes: record.size_bytes,
        width: record.width,
        height: record.height,
        modified_at: decimal(record.modified_at as nat),
        blur_score: record.blur_score,
    }
}

/// What is shown of the file that a record is about.
pub open spec fn item_of(record: RecordView) -> ItemView {
    named_item(record, path_id(record.path), file_name_text(record.path))
}

/// Whether an item is what is shown of the file that a record is about, given its file name.
/// The extension is settled for an ASCII name.
pub open spec fn is_simple_item(record: RecordView, name: Seq<char>, item: ItemView) -> bool {
    &&& item == named_item(record, path_id(record.path), Some(name))
    &&& is_ascii_chars(name) ==> item.extension == ascii_extension(name)
}

/// What is shown of the files that records are about, in the same order.
pub open spec fn items_of(records: Seq<RecordView>) -> Seq<ItemView> {
    records.map_values(|record: RecordView| item_of(record))
}

impl Clone for CacheRecord {
    fn clone(&self) -> (copy: Self)
        ensures
            copy == *self,
    {
        CacheRecord {
            path: self.path.clone(),
            size_bytes: self.size_bytes,
            modified_at: self.modified_at,
            content_hash: self.content_hash.clone(),
            width: self.width,
            height: self.height,
            blur_score: self.blur_score,
            perceptual_hash: self.perceptual_hash,
        }
    }
}

impl Clone for AnalyzedImage {
    fn clone(&self) -> (copy: Self)
        ensures
            copy == *self,
    {
        AnalyzedImage { record: self.record.clone() }
    }
}

impl Clone for ImageItem {
    fn clone(&self) -> (copy: Self)
        ensures
            copy == *self,
    {
        ImageItem {
            id: self.id.clone(),
            path: self.path.clone(),
            file_name: self.file_name.clone(),
            extension: self.extension.clone(),
            size_bytes: self.size_bytes,
            width: self.width,
            height: self.height,
            modified_at: self.modified_at.clone(),
            blur_score: self.blur_score,
        }
    }
}

impl CacheRecord {
    /// What is known of a file from its path, its size and its time of change.
    pub fn basic(path: &str, size_bytes: u64, modified_at: u64) -> (record: CacheRecord)
        ensures
            record@ == basic_view(path@, size_bytes, modified_at),
    {
        CacheRecord {
            path: path.to_string(),
            size_bytes,
            modified_at,
            content_hash: String::new(),
            width: 0,
            height: 0,
            blur_score: None,
            perceptual_hash: None,
        }
    }

    /// Whether the file was read and measured.
    pub fn has_details(&self) -> (detailed: bool)
        ensures
            detailed == is_detailed(self@),
    {
        self.width > 0 && self.height > 0 && self.perceptual_hash.is_some()
    }

    /// What is shown of the file, given its identifier and its file name.
    pub fn item_named(&self, id: String, name: Option<String>) -> (item: ImageItem)
        ensures
            item@ == named_item(self@, id@, optional_text(name)),
            match optional_text(name) {
                Some(text) => is_ascii_chars(text) ==> item.extension@ == ascii_extension(text),
                None => item.extension@.len() == 0,
            },
    {
        let extension: String = label_extension(&name);
        ImageItem {
            id,
            path: self.path.clone(),
            file_name: label_name(name),
            extension,
            size_bytes: self.size_bytes,
            width: self.width,
            height: self.height,
            modified_at: decimal_text(self.modified_at),
            blur_score: self.blur_score,
        }
    }

    /// What is shown of the file.
    pub fn item(&self) -> (item: ImageItem)
        ensures
            item@ == item_of(self@),
            simple_name(self@.path) matches Some(name) ==> is_simple_item(self@, name, item@),
    {
        self.item_named(stable_id(self.path.as_str()), file_name(self.path.as_str()))
    }
}

impl AnalyzedImage {
    /// What is shown of the image.
    pub fn item(&self) -> (item: ImageItem)
        ensures
            item@ == item_of(self@),
            simple_name(self@.path) matches Some(name) ==> is_simple_item(self@, name, item@),
    {
        self.record.item()
    }
}

/// The contents of a record, an item, a group and an image hold every field as it is.
pub proof fn law_views_hold_every_field(
    record: CacheRecord,
    item: ImageItem,
    group: ImageGroup,
    image: AnalyzedImage,
)
    ensures
        record@.path == record.path@,
        record@.size_bytes == record.size_bytes,
        record@.modified_at == record.modified_at,
        record@.content_hash == record.content_hash@,
        record@.width == record.width,
        record@.height == record.height,
        record@.blur_score == record.blur_score,
        record@.perceptual_hash == record.perceptual_hash,
        item@.id == item.id@,
        item@.path == item.path@,
        item@.file_name == item.file_name@,
        item@.extension == item.extension@,
        item@.size_bytes == item.size_bytes,
        item@.width == item.width,
        item@.height == item.height,
        item@.modified_at == item.modified_at@,
        item@.blur_score == item.blur_score,
        group@.id == group.id@,
        group@.title == group.title@,
        group@.items.len() == group.items@.len(),
        forall|k: int|
            0 <= k < group.items@.len() ==> (#[trigger] group@.items[k]) == group.items@[k]@,
        image@ == image.record@,
{
}

/// The contents of lists are the contents of their entries, one by one.
pub proof fn law_views_of_lists_hold_every_entry(
    records: Seq<CacheRecord>,
    items: Seq<ImageItem>,
    groups: Seq<ImageGroup>,
    images: Seq<AnalyzedImage>,
)
    ensures
        record_views(records).len() == records.len(),
        forall|k: int|
            0 <= k < records.len() ==> (#[trigger] record_views(records)[k]) == records[k]@,
        item_views(items).len() == items.len(),
        forall|k: int| 0 <= k < items.len() ==> (#[trigger] item_views(items)[k]) == items[k]@,
        group_views(groups).len() == groups.len(),
        forall|k: int| 0 <= k < groups.len() ==> (#[trigger] group_views(groups)[k]) == groups[k]@,
        analyzed_views(images).len() == images.len(),
        forall|k: int|
            0 <= k < images.len() ==> (#[trigger] analyzed_views(images)[k]) == images[k].record@,
{
}

/// An item shows the fields of its record as they are, the time of change in decimal, and the
/// name and the extension that the file name gives.
pub proof fn law_item_shows_its_record(record: RecordView, id: Seq<char>, name: Option<Seq<char>>)
    ensures
        named_item(record, id, name).id == id,
        named_item(record, id, name).path == record.path,
        named_item(record, id, name).file_name == match name {
            Some(text) => text,
            None => "不明なファイル"@,
        },
        named_item(record, id, name).extension == match name {
            Some(text) => match extension_of(text) {
                Some(extension) => lowercase_text(extension),
                None => Seq::empty(),
            },
            None => Seq::empty(),
        },
        named_item(record, id, name).size_bytes == record.size_bytes,
        named_item(record, id, name).width == record.width,
        named_item(record, id, name).height == record.height,
        named_item(record, id, name).modified_at == decimal(record.modified_at as nat),
        named_item(record, id, name).blur_score == record.blur_score,
        item_of(record) == named_item(
            record,
            hexadecimal(DefaultHasher::spec_finish(hashed_pieces(record.path)) as nat),
            file_name_text(record.path),
        ),
        items_of(seq![record]) == seq![item_of(record)],
{
    assert(items_of(seq![record]) =~= seq![item_of(record)]);
}

/// The items of records are shown one by one, in the same order.
pub proof fn law_items_are_shown_in_order(records: Seq<RecordView>)
    ensures
        items_of(records).len() == records.len(),
        forall|k: int|
            0 <= k < records.len() ==> (#[trigger] items_of(records)[k]) == item_of(records[k]),
{
}

/// Of a file that was not read, the path, the size and the time of change are known, and
/// nothing else.
pub proof fn law_unread_file_has_no_details(path: Seq<char>, size_bytes: u64, modified_at: u64)
    ensures
        basic_view(path, size_bytes, modified_at).path == path,
        basic_view(path, size_bytes, modified_at).size_bytes == size_bytes,
        basic_view(path, size_bytes, modified_at).modified_at == modified_at,
        basic_view(path, size_bytes, modified_at).content_hash == Seq::<char>::empty(),
        basic_view(path, size_bytes, modified_at).width == 0,
        basic_view(path, size_bytes, modified_at).height == 0,
        basic_view(path, size_bytes, modified_at).blur_score is None,
        basic_view(path, size_bytes, modified_at).perceptual_hash is None,
{
}

/// A file counts as measured exactly if its image has a width, a height and a hash, whatever
/// they are and whatever else is known.
pub proof fn law_measured_file_has_size_and_hash(record: RecordView)
    ensures
        record.width != 0 && record.height != 0 && record.perceptual_hash != None::<u64>
            <==> is_detailed(record),
{
}

} // verus!

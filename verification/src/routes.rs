//! The requests that the service takes, what each comes down to, and its
//! answers.

use vstd::hash_map::StringHashMap;
use vstd::hash_set::StringHashSet;
use vstd::prelude::*;
use vstd::utf8::encode_utf8;

use crate::crypto::{CryptoError, MAX_PLAINTEXT_LEN};
use crate::error::{text_result, unit_result, AppError, ErrorView};
use crate::mappings::javascript::{
    self, has_closest_beyond, is_applied, map_file, map_file_name, parsed_source_map,
};
use crate::mappings::proguard::{
    self, mapping_key, mapping_prefix, proguard_s3_prefix, retrace_stacktrace, retraced_with,
};
use crate::mappings::{
    non_empty, object_key, put_next, require_non_empty, s3_key, MappingType, OriginalPosition,
};
use crate::order::{
    comes_before, is_sorted_form, lemma_index_is_reached, lemma_reordered,
    lemma_text_less_irreflexive, lemma_text_less_total, lemma_text_less_transitive, sort_texts,
    stable_order, text_less, Ranked,
};
use crate::project::{
    law_id_text_has_no_slash, law_id_text_injective, law_id_text_starts_with_digit, ProjectId,
};
use crate::storage::{
    fetched, keys_of, metas_view, s3_error, stored_content, zstd_frame, GetObject, GetReply,
    KeyDeletion, KeyDeletionView, KeyListing, Listing, ListingView, MetaView, PrefixDeletion,
    PrefixDeletionView, PutObject, S3Failure, Storage, StoredObjectMeta,
};
use crate::text::{
    chars_of, is_blank, law_split_is_undone_by_joining, lemma_not_blank, lemma_split_once_at,
    lemma_trim_idempotent, occurs_at, split_once, split_once_chars, strip_prefix_chars, text_of,
    text_view, texts_view, trim, trim_chars,
};

verus! {

/// The largest body that an upload may have.
pub const INGEST_MAX_BODY_BYTES: usize = 52_428_800;

// ---------------------------------------------------------------------------
// Requests and answers
// ---------------------------------------------------------------------------

/// A source map to be stored.
#[derive(Debug)]
pub struct SourcemapEntry {
    pub file_name: String,
    pub sourcemap: String,
}

/// A ProGuard mapping file to be stored.
#[derive(Debug)]
pub struct ProguardEntry {
    pub file_name: String,
    pub mapping: String,
}

/// An upload.
#[derive(Debug)]
pub enum IngestPayload {
    JavaScript {
        build_id: String,
        bundler: String,
        uploaded_at: String,
        sourcemaps: Vec<SourcemapEntry>,
    },
    Proguard {
        build_id: String,
        uploaded_at: String,
        file_name: Option<String>,
        mapping: Option<String>,
        mappings: Vec<ProguardEntry>,
        files: Vec<ProguardEntry>,
    },
}

pub struct IngestResponse {
    pub ok: bool,
    pub ingested_count: usize,
}

pub struct WipeResponse {
    pub ok: bool,
    pub deleted_files: u64,
    pub deleted_rows: u64,
}

#[derive(Debug)]
pub struct DeleteSourcemapPayload {
    pub s3_key: String,
}

pub struct DeleteSourcemapResponse {
    pub ok: bool,
    pub deleted_files: u64,
}

/// A stored file in the list of a project.
pub struct SourcemapListItem {
    pub build_id: String,
    pub file_name: String,
    pub size: u64,
}

pub struct SourcemapListResponse {
    pub ok: bool,
    pub sourcemaps: Vec<SourcemapListItem>,
}

/// What is to be traced back to its source.
#[derive(Debug)]
pub enum ApplyPayload {
    JavaScript { build_id: String, file_name: String, line: u32, column: u32 },
    Proguard { build_id: String, stacktrace: String },
}

pub enum ApplyResponse {
    JavaScript { ok: bool, original: OriginalPosition },
    Proguard { ok: bool, stacktrace: String },
}

#[derive(Debug)]
pub struct CleanupPayload {
    pub excluded_build_ids: Vec<String>,
}

pub struct CleanupResponse {
    pub ok: bool,
    pub latest_build_id: Option<String>,
    pub excluded_build_ids: Vec<String>,
    pub deleted_build_ids: Vec<String>,
    pub deleted_files: u64,
}

// ---------------------------------------------------------------------------
// Checking uploads
// ---------------------------------------------------------------------------

/// A file name and what the file holds.
pub type FileView = (Seq<char>, Seq<char>);

pub open spec fn sourcemap_files(entries: Seq<SourcemapEntry>) -> Seq<FileView> {
    entries.map_values(|e: SourcemapEntry| (e.file_name@, e.sourcemap@))
}

pub open spec fn proguard_files(entries: Seq<ProguardEntry>) -> Seq<FileView> {
    entries.map_values(|e: ProguardEntry| (e.file_name@, e.mapping@))
}

pub open spec fn files_view(files: Seq<(String, String)>) -> Seq<FileView> {
    files.map_values(|file: (String, String)| (file.0@, file.1@))
}

/// Two checks, of which the first that fails counts.
pub open spec fn both(first: Result<(), ErrorView>, second: Result<(), ErrorView>) -> Result<
    (),
    ErrorView,
> {
    if first is Err {
        first
    } else {
        second
    }
}

/// The check of one file: it has a name and content, where the content goes by
/// the given name.
pub open spec fn file_check(file: FileView, content: Seq<char>) -> Result<(), ErrorView> {
    both(non_empty("file_name"@, file.0), non_empty(content, file.1))
}

/// The check of several files.
pub open spec fn files_check(files: Seq<FileView>, content: Seq<char>) -> Result<(), ErrorView>
    decreases files.len(),
{
    if files.len() == 0 {
        Ok(())
    } else {
        both(file_check(files.first(), content), files_check(files.drop_first(), content))
    }
}

/// The check of what names an upload.
pub open spec fn upload_check(build_id: Seq<char>, uploaded_at: Seq<char>) -> Result<
    (),
    ErrorView,
> {
    both(non_empty("build_id"@, build_id), non_empty("uploaded_at"@, uploaded_at))
}

/// The check of an upload of source maps.
pub open spec fn js_ingest_check(
    build_id: Seq<char>,
    uploaded_at: Seq<char>,
    files: Seq<FileView>,
) -> Result<(), ErrorView> {
    both(
        upload_check(build_id, uploaded_at),
        if files.len() == 0 {
            Err(ErrorView::BadRequest("no sourcemaps provided"@))
        } else {
            files_check(files, "sourcemap"@)
        },
    )
}

fn check_file(file_name: &str, content_field: &str, content: &str) -> (checked: Result<
    (),
    AppError,
>)
    ensures
        unit_result(checked) == file_check((file_name@, content@), content_field@),
{
    let named = require_non_empty("file_name", file_name);
    if named.is_err() {
        return named;
    }
    require_non_empty(content_field, content)
}

fn check_upload(build_id: &str, uploaded_at: &str) -> (checked: Result<(), AppError>)
    ensures
        unit_result(checked) == upload_check(build_id@, uploaded_at@),
{
    let named = require_non_empty("build_id", build_id);
    if named.is_err() {
        return named;
    }
    require_non_empty("uploaded_at", uploaded_at)
}

/// Checks an upload of source maps.
pub fn validate_js_ingest(
    build_id: &str,
    uploaded_at: &str,
    sourcemaps: &[SourcemapEntry],
) -> (checked: Result<(), AppError>)
    ensures
        unit_result(checked) == js_ingest_check(
            build_id@,
            uploaded_at@,
            sourcemap_files(sourcemaps@),
        ),
{
    let named = check_upload(build_id, uploaded_at);
    if named.is_err() {
        return named;
    }
    if sourcemaps.len() == 0 {
        return Err(AppError::BadRequest("no sourcemaps provided".to_owned()));
    }
    let ghost files = sourcemap_files(sourcemaps@);
    let mut i: usize = 0;
    assert(files.skip(0) == files);
    while i < sourcemaps.len()
        invariant
            i <= sourcemaps@.len(),
            files == sourcemap_files(sourcemaps@),
            files.len() > 0,
            upload_check(build_id@, uploaded_at@) is Ok,
            files_check(files, "sourcemap"@) == files_check(files.skip(i as int), "sourcemap"@),
        decreases sourcemaps@.len() - i,
    {
        let entry = &sourcemaps[i];
        let checked = check_file(entry.file_name.as_str(), "sourcemap", entry.sourcemap.as_str());
        if checked.is_err() {
            return checked;
        }
        assert(files.skip(i as int).drop_first() == files.skip(i + 1));
        i += 1;
    }
    Ok(())
}

/// The files of an upload before they are checked. A mapping that is not in
/// one of the lists needs a file name, unless it is the only one.
pub open spec fn gathered_files(
    file_name: Option<Seq<char>>,
    mapping: Option<Seq<char>>,
    listed: Seq<FileView>,
) -> Result<Seq<FileView>, ErrorView> {
    match (file_name, mapping) {
        (Some(file_name), Some(mapping)) => Ok(listed.push((file_name, mapping))),
        (Some(_), None) => Err(ErrorView::BadRequest("mapping is required"@)),
        (None, Some(mapping)) => if listed.len() == 0 {
            Ok(seq![("mapping.txt"@, mapping)])
        } else {
            Err(ErrorView::BadRequest("file_name is required"@))
        },
        (None, None) => Ok(listed),
    }
}

/// The files of an upload of ProGuard mappings.
pub open spec fn proguard_upload(
    build_id: Seq<char>,
    uploaded_at: Seq<char>,
    file_name: Option<Seq<char>>,
    mapping: Option<Seq<char>>,
    listed: Seq<FileView>,
) -> Result<Seq<FileView>, ErrorView> {
    match upload_check(build_id, uploaded_at) {
        Err(error) => Err(error),
        Ok(_) => match gathered_files(file_name, mapping, listed) {
            Err(error) => Err(error),
            Ok(files) => if files.len() == 0 {
                Err(ErrorView::BadRequest("no proguard mappings provided"@))
            } else {
                match files_check(files, "mapping"@) {
                    Err(error) => Err(error),
                    Ok(_) => Ok(files),
                }
            },
        },
    }
}

/// A result of files by what it holds.
pub open spec fn files_result(result: Result<Vec<(String, String)>, AppError>) -> Result<
    Seq<FileView>,
    ErrorView,
> {
    match result {
        Ok(files) => Ok(files_view(files@)),
        Err(error) => Err(error@),
    }
}

/// Adds the files of a list.
fn push_entries(files: &mut Vec<(String, String)>, entries: &[ProguardEntry])
    ensures
        files_view(final(files)@) == files_view(old(files)@) + proguard_files(entries@),
{
    let ghost before = files_view(files@);
    let ghost all = proguard_files(entries@);
    let mut i: usize = 0;
    while i < entries.len()
        invariant
            i <= entries@.len(),
            all == proguard_files(entries@),
            files_view(files@) == before + all.take(i as int),
        decreases entries@.len() - i,
    {
        let ghost so_far = files_view(files@);
        files.push((entries[i].file_name.clone(), entries[i].mapping.clone()));
        assert(files_view(files@) == so_far.push(all[i as int]));
        i += 1;
    }
}

/// Files are what an upload of ProGuard mappings holds: those of the two lists,
/// each name with its own content, and behind them the single mapping, if there
/// is one, under the name that is given for it, or as `mapping.txt`.
pub open spec fn are_uploaded_mappings(
    stored: Seq<(String, String)>,
    file_name: Option<String>,
    mapping: Option<String>,
    mappings: Seq<ProguardEntry>,
    files: Seq<ProguardEntry>,
) -> bool {
    let n = mappings.len() as int;
    let m = n + files.len();
    &&& stored.len() == m + if mapping is Some {
        1int
    } else {
        0int
    }
    &&& forall|i: int|
        0 <= i < n ==> (#[trigger] stored[i]).0@ == mappings[i].file_name@ && stored[i].1@
            == mappings[i].mapping@
    &&& forall|i: int|
        n <= i < m ==> (#[trigger] stored[i]).0@ == files[i - n].file_name@ && stored[i].1@
            == files[i - n].mapping@
    &&& match (file_name, mapping) {
        (Some(name), Some(content)) => stored[m].0@ == name@ && stored[m].1@ == content@,
        (None, Some(content)) => stored[m].0@ == "mapping.txt"@ && stored[m].1@ == content@,
        (_, None) => true,
    }
}

/// Files are what an upload of source maps holds, each name with its own content.
pub open spec fn are_uploaded_sourcemaps(
    stored: Seq<(String, String)>,
    sourcemaps: Seq<SourcemapEntry>,
) -> bool {
    &&& stored.len() == sourcemaps.len()
    &&& forall|i: int|
        0 <= i < stored.len() ==> (#[trigger] stored[i]).0@ == sourcemaps[i].file_name@
            && stored[i].1@ == sourcemaps[i].sourcemap@
}

proof fn lemma_uploaded_mappings(
    stored: Seq<(String, String)>,
    file_name: Option<String>,
    mapping: Option<String>,
    mappings: Seq<ProguardEntry>,
    files: Seq<ProguardEntry>,
)
    requires
        gathered_files(
            text_view(file_name),
            text_view(mapping),
            proguard_files(mappings) + proguard_files(files),
        ) == Ok::<_, ErrorView>(files_view(stored)),
    ensures
        are_uploaded_mappings(stored, file_name, mapping, mappings, files),
{
    let (first, second) = (proguard_files(mappings), proguard_files(files));
    let listed = first + second;
    let all = files_view(stored);
    let n = mappings.len() as int;
    let m = n + files.len();
    assert(listed.len() == m);
    assert(all.len() == stored.len());
    match (file_name, mapping) {
        (Some(name), Some(content)) => {
            assert(all == listed.push((name@, content@)));
        },
        (None, Some(content)) => {
            assert(all == seq![("mapping.txt"@, content@)]);
        },
        _ => {
            assert(all == listed);
        },
    }
    assert(all.take(m) =~= listed);
    assert forall|i: int| 0 <= i < n implies (#[trigger] stored[i]).0@ == mappings[i].file_name@
        && stored[i].1@ == mappings[i].mapping@ by {
        assert(all[i] == (stored[i].0@, stored[i].1@));
        assert(all.take(m)[i] == first[i]);
    }
    assert forall|i: int| n <= i < m implies (#[trigger] stored[i]).0@ == files[i - n].file_name@
        && stored[i].1@ == files[i - n].mapping@ by {
        assert(all[i] == (stored[i].0@, stored[i].1@));
        assert(all.take(m)[i] == second[i - n]);
    }
    if mapping is Some {
        assert(all[m] == (stored[m].0@, stored[m].1@));
    }
}

/// The files of an upload of ProGuard mappings, from the two lists and the
/// single mapping that it may hold.
pub fn normalize_proguard_entries(
    build_id: &str,
    uploaded_at: &str,
    file_name: &Option<String>,
    mapping: &Option<String>,
    mappings: &[ProguardEntry],
    files: &[ProguardEntry],
) -> (normalized: Result<Vec<(String, String)>, AppError>)
    ensures
        files_result(normalized) == proguard_upload(
            build_id@,
            uploaded_at@,
            text_view(*file_name),
            text_view(*mapping),
            proguard_files(mappings@) + proguard_files(files@),
        ),
        normalized matches Ok(stored) ==> are_uploaded_mappings(
            stored@,
            *file_name,
            *mapping,
            mappings@,
            files@,
        ),
{
    match check_upload(build_id, uploaded_at) {
        Ok(_) => {},
        Err(error) => {
            return Err(error);
        },
    }
    let ghost listed = proguard_files(mappings@) + proguard_files(files@);
    let mut normalized: Vec<(String, String)> = Vec::new();
    push_entries(&mut normalized, mappings);
    push_entries(&mut normalized, files);
    match (file_name, mapping) {
        (Some(file_name), Some(mapping)) => {
            normalized.push((file_name.clone(), mapping.clone()));
            assert(files_view(normalized@) == listed.push((file_name@, mapping@)));
        },
        (Some(_), None) => {
            return Err(AppError::BadRequest("mapping is required".to_owned()));
        },
        (None, Some(mapping)) => {
            if normalized.len() > 0 {
                return Err(AppError::BadRequest("file_name is required".to_owned()));
            }
            normalized.push(("mapping.txt".to_owned(), mapping.clone()));
            assert(files_view(normalized@) == seq![("mapping.txt"@, mapping@)]);
        },
        (None, None) => {},
    }
    let ghost all = files_view(normalized@);
    if normalized.len() == 0 {
        return Err(AppError::BadRequest("no proguard mappings provided".to_owned()));
    }
    let mut i: usize = 0;
    assert(all.skip(0) == all);
    while i < normalized.len()
        invariant
            i <= normalized@.len(),
            all == files_view(normalized@),
            all.len() > 0,
            upload_check(build_id@, uploaded_at@) is Ok,
            listed == proguard_files(mappings@) + proguard_files(files@),
            gathered_files(text_view(*file_name), text_view(*mapping), listed) == Ok::<
                _,
                ErrorView,
            >(all),
            files_check(all, "mapping"@) == files_check(all.skip(i as int), "mapping"@),
        ensures
            files_check(all, "mapping"@) is Ok,
        decreases normalized@.len() - i,
    {
        let file = &normalized[i];
        match check_file(file.0.as_str(), "mapping", file.1.as_str()) {
            Ok(_) => {},
            Err(error) => {
                return Err(error);
            },
        }
        assert(all.skip(i as int).drop_first() == all.skip(i + 1));
        i += 1;
    }
    proof {
        lemma_uploaded_mappings(normalized@, *file_name, *mapping, mappings@, files@);
    }
    Ok(normalized)
}

// ---------------------------------------------------------------------------
// Keys of stored files
// ---------------------------------------------------------------------------

/// The build and the file name in a key `project/build/file`. The file name
/// may have slashes in it.
pub open spec fn key_parts(key: Seq<char>) -> Option<FileView> {
    match split_once(key, "/"@) {
        Some((_, rest)) => split_once(rest, "/"@),
        None => None,
    }
}

pub fn parse_sourcemap_key(key: &str) -> (parts: Option<(String, String)>)
    ensures
        match parts {
            Some((build_id, file_name)) => key_parts(key@) == Some((build_id@, file_name@)),
            None => key_parts(key@) is None,
        },
{
    let chars = chars_of(key);
    match split_once_chars(&chars, "/") {
        Some((_, rest)) => match split_once_chars(rest, "/") {
            Some((build_id, file_name)) => Some((text_of(build_id), text_of(file_name))),
            None => None,
        },
        None => None,
    }
}

/// What the keys of a project start with.
pub open spec fn project_prefix(project_id: ProjectId) -> Seq<char> {
    project_id.text() + "/"@
}

fn prefix_of(project_id: ProjectId) -> (prefix: String)
    ensures
        prefix@ == project_prefix(project_id),
{
    let mut prefix = project_id.to_text();
    prefix.append("/");
    prefix
}

/// A key is taken for a stored file of a project, and for nothing else.
pub open spec fn checked_key(project_id: ProjectId, key: Seq<char>) -> Result<
    Seq<char>,
    ErrorView,
> {
    match non_empty("s3_key"@, key) {
        Err(error) => Err(error),
        Ok(_) => if project_prefix(project_id).is_prefix_of(key) && key_parts(key) is Some {
            Ok(key)
        } else {
            Err(ErrorView::BadRequest("invalid sourcemap key"@))
        },
    }
}

pub fn validate_project_sourcemap_key(project_id: ProjectId, s3_key: &str) -> (checked: Result<
    String,
    AppError,
>)
    ensures
        text_result(checked) == checked_key(project_id, s3_key@),
{
    match require_non_empty("s3_key", s3_key) {
        Ok(_) => {},
        Err(error) => {
            return Err(error);
        },
    }
    let chars = chars_of(s3_key);
    let owned = strip_prefix_chars(&chars, prefix_of(project_id).as_str()).is_some();
    if !owned || parse_sourcemap_key(s3_key).is_none() {
        return Err(AppError::BadRequest("invalid sourcemap key".to_owned()));
    }
    Ok(s3_key.to_owned())
}

// ---------------------------------------------------------------------------
// Listing
// ---------------------------------------------------------------------------

pub struct ItemView {
    pub build_id: Seq<char>,
    pub file_name: Seq<char>,
    pub size: u64,
}

impl View for SourcemapListItem {
    type V = ItemView;

    open spec fn view(&self) -> ItemView {
        ItemView { build_id: self.build_id@, file_name: self.file_name@, size: self.size }
    }
}

pub open spec fn items_view(items: Seq<SourcemapListItem>) -> Seq<ItemView> {
    items.map_values(|item: SourcemapListItem| item@)
}

/// The stored files among objects, in their order. A size that is not known
/// counts as zero.
pub open spec fn stored_files(objects: Seq<MetaView>) -> Seq<ItemView>
    decreases objects.len(),
{
    if objects.len() == 0 {
        seq![]
    } else {
        let before = stored_files(objects.drop_last());
        match key_parts(objects.last().key) {
            Some((build_id, file_name)) => before.push(
                ItemView {
                    build_id,
                    file_name,
                    size: match objects.last().size_bytes {
                        Some(size) => size,
                        None => 0,
                    },
                },
            ),
            None => before,
        }
    }
}

/// One item stands before another in a list: later builds first, and within a
/// build later file names first.
pub open spec fn item_before(a: ItemView, b: ItemView) -> bool {
    ||| text_less(b.build_id, a.build_id)
    ||| a.build_id == b.build_id && text_less(b.file_name, a.file_name)
}

/// `listed` has the items at the given indices, sorted; of items of one rank
/// the one with the lower index comes first.
pub open spec fn is_listed_by(
    items: Seq<ItemView>,
    listed: Seq<ItemView>,
    order: Seq<usize>,
) -> bool {
    &&& order.len() == items.len()
    &&& listed.len() == items.len()
    &&& forall|k: int|
        0 <= k < order.len() ==> #[trigger] order[k] < items.len() && listed[k]
            == items[order[k] as int]
    &&& forall|j: int, k: int|
        0 <= j < k < order.len() ==> item_before(
            #[trigger] listed[j],
            #[trigger] listed[k],
        ) || (!item_before(listed[k], listed[j]) && order[j] < order[k])
}

impl Ranked for SourcemapListItem {
    open spec fn before(&self, other: &Self) -> bool {
        item_before(self@, other@)
    }

    proof fn before_is_strict(a: &Self, b: &Self, c: &Self) {
        String::before_is_strict(&a.build_id, &b.build_id, &c.build_id);
        String::before_is_strict(&c.build_id, &b.build_id, &a.build_id);
        String::before_is_strict(&a.file_name, &b.file_name, &c.file_name);
        String::before_is_strict(&c.file_name, &b.file_name, &a.file_name);
        lemma_text_less_total(a.build_id@, b.build_id@);
    }

    fn is_before(&self, other: &Self) -> (is: bool) {
        proof {
            lemma_text_less_total(self.build_id@, other.build_id@);
        }
        if comes_before(other.build_id.as_str(), self.build_id.as_str()) {
            true
        } else if comes_before(self.build_id.as_str(), other.build_id.as_str()) {
            false
        } else {
            comes_before(other.file_name.as_str(), self.file_name.as_str())
        }
    }
}

/// An item names an object that is a stored file: the key is made of some
/// project, the build and the file name of the item, and the size is that of
/// the object, or zero where it is not known.
pub open spec fn is_listed_file(object: MetaView, item: ItemView) -> bool {
    &&& is_file_key(object.key, item.build_id, item.file_name)
    &&& match object.size_bytes {
        Some(size) => item.size == size,
        None => item.size == 0,
    }
}

/// Two items stand in the order of a list: later builds come first, within a
/// build later file names; where both are the same, the order of the objects
/// that they come from stays.
pub open spec fn are_in_order(a: ItemView, source_a: int, b: ItemView, source_b: int) -> bool {
    ||| text_less(b.build_id, a.build_id)
    ||| a.build_id == b.build_id && text_less(b.file_name, a.file_name)
    ||| a.build_id == b.build_id && a.file_name == b.file_name && source_a < source_b
}

/// The items of a list are the stored files among objects, each once: `sources`
/// has the place of the object of each.
pub open spec fn are_files_of(
    objects: Seq<StoredObjectMeta>,
    items: Seq<SourcemapListItem>,
    sources: Seq<int>,
) -> bool {
    &&& sources.len() == items.len()
    &&& sources.no_duplicates()
    &&& forall|k: int|
        #![trigger sources[k]]
        #![trigger items[k]]
        0 <= k < items.len() ==> 0 <= sources[k] < objects.len() && is_listed_file(
            objects[sources[k]]@,
            items[k]@,
        ) && items[k]@.build_id == items[k].build_id@ && items[k]@.file_name == items[k].file_name@
            && items[k]@.size == items[k].size
    &&& forall|i: int|
        0 <= i < objects.len() ==> (#[trigger] objects[i])@.key == objects[i].key@
            && objects[i]@.size_bytes == objects[i].size_bytes
    &&& forall|i: int, build: Seq<char>, file: Seq<char>|
        0 <= i < objects.len() && #[trigger] is_file_key(objects[i].key@, build, file)
            ==> sources.contains(i)
    &&& forall|j: int, k: int|
        0 <= j < k < items.len() ==> are_in_order(
            (#[trigger] items[j])@,
            sources[j],
            (#[trigger] items[k])@,
            sources[k],
        )
}

/// The answer that lists the stored files among objects.
pub fn list_response(objects: Vec<StoredObjectMeta>) -> (response: SourcemapListResponse)
    ensures
        response.ok,
        exists|order: Seq<usize>|
            #[trigger] is_listed_by(
                stored_files(metas_view(objects@)),
                items_view(response.sourcemaps@),
                order,
            ),
        exists|sources: Seq<int>| #[trigger]
            are_files_of(objects@, response.sourcemaps@, sources),
{
    let ghost metas = metas_view(objects@);
    let mut items: Vec<SourcemapListItem> = Vec::new();
    let mut i: usize = 0;
    while i < objects.len()
        invariant
            i <= objects@.len(),
            metas == metas_view(objects@),
            items_view(items@) == stored_files(metas.take(i as int)),
        decreases objects@.len() - i,
    {
        assert(metas.take(i + 1).drop_last() == metas.take(i as int));
        match parse_sourcemap_key(objects[i].key.as_str()) {
            Some((build_id, file_name)) => {
                let item = SourcemapListItem {
                    build_id,
                    file_name,
                    size: match objects[i].size_bytes {
                        Some(size) => size,
                        None => 0,
                    },
                };
                items.push(item);
            },
            None => {},
        }
        i += 1;
    }
    assert(metas.take(i as int) == metas);
    let order = stable_order(items.as_slice());
    let mut sourcemaps: Vec<SourcemapListItem> = Vec::new();
    let mut n: usize = 0;
    while n < order.len()
        invariant
            n <= order@.len(),
            crate::order::is_stable_order(items@, order@),
            sourcemaps@.len() == n,
            forall|k: int| 0 <= k < n ==> (#[trigger] sourcemaps@[k])@ == items@[order@[k] as int]@,
        decreases order@.len() - n,
    {
        let item = &items[order[n]];
        sourcemaps.push(
            SourcemapListItem {
                build_id: item.build_id.clone(),
                file_name: item.file_name.clone(),
                size: item.size,
            },
        );
        n += 1;
    }
    let response = SourcemapListResponse { ok: true, sourcemaps };
    assert(is_listed_by(
        stored_files(metas_view(objects@)),
        items_view(response.sourcemaps@),
        order@,
    ));
    proof {
        let listed = items_view(response.sourcemaps@);
        law_list_names_each_stored_file(metas, listed, order@);
        let sources = choose|sources: Seq<int>| are_listed_from(metas, listed, sources);
        lemma_views_are_listed(objects@, response.sourcemaps@, sources);
    }
    response
}

// ---------------------------------------------------------------------------
// Cleaning up old builds
// ---------------------------------------------------------------------------

/// Build identifiers without white space around them, without empty ones, and
/// each once, where it came first.
pub open spec fn normalized(ids: Seq<Seq<char>>) -> Seq<Seq<char>>
    decreases ids.len(),
{
    if ids.len() == 0 {
        seq![]
    } else {
        let before = normalized(ids.drop_last());
        let id = trim(ids.last());
        if id.len() == 0 || before.contains(id) {
            before
        } else {
            before.push(id)
        }
    }
}

pub fn normalized_build_ids(input: &[String]) -> (ids: Vec<String>)
    ensures
        texts_view(ids@) == normalized(texts_view(input@)),
{
    let ghost all = texts_view(input@);
    let mut seen = StringHashSet::new();
    let mut ids: Vec<String> = Vec::new();
    let mut i: usize = 0;
    while i < input.len()
        invariant
            i <= input@.len(),
            all == texts_view(input@),
            texts_view(ids@) == normalized(all.take(i as int)),
            forall|id: Seq<char>| #[trigger] seen@.contains(id) <==> texts_view(ids@).contains(id),
        decreases input@.len() - i,
    {
        assert(all.take(i + 1).drop_last() == all.take(i as int));
        let chars = chars_of(input[i].as_str());
        let trimmed = trim_chars(&chars);
        if trimmed.len() > 0 {
            let ghost so_far = texts_view(ids@);
            let id = text_of(trimmed);
            if !seen.contains(id.as_str()) {
                let copy = id.clone();
                seen.insert(copy);
                ids.push(id);
                assert(texts_view(ids@) == so_far.push(id@));
                assert forall|other: Seq<char>| #[trigger] seen@.contains(other) <==> texts_view(
                    ids@,
                ).contains(other) by {
                    if so_far.contains(other) {
                        let k = choose|k: int| 0 <= k < so_far.len() && so_far[k] == other;
                        assert(texts_view(ids@)[k] == other);
                    }
                    assert(texts_view(ids@)[so_far.len() as int] == id@);
                }
            }
        }
        i += 1;
    }
    assert(all.take(i as int) == all);
    ids
}

/// When an object was last modified. An object of which this is not known
/// counts as oldest.
pub open spec fn modified_at(object: MetaView) -> i64 {
    match object.last_modified_epoch_seconds {
        Some(seconds) => seconds,
        None => i64::MIN,
    }
}

/// The later of two times, of which the first may be missing.
pub open spec fn later(a: Option<i64>, b: i64) -> i64 {
    match a {
        Some(a) => if a < b {
            b
        } else {
            a
        },
        None => b,
    }
}

/// When the newest object of a build was modified, if the build has objects.
pub open spec fn build_modified(objects: Seq<MetaView>, build: Seq<char>) -> Option<i64>
    decreases objects.len(),
{
    if objects.len() == 0 {
        None
    } else {
        let before = build_modified(objects.drop_last(), build);
        match key_parts(objects.last().key) {
            Some((id, _)) => if id == build {
                Some(later(before, modified_at(objects.last())))
            } else {
                before
            },
            None => before,
        }
    }
}

/// One build is newer than another: by the time of its newest object, then by
/// its identifier.
pub open spec fn is_newer(objects: Seq<MetaView>, a: Seq<char>, b: Seq<char>) -> bool {
    match (build_modified(objects, a), build_modified(objects, b)) {
        (Some(x), Some(y)) => x > y || (x == y && text_less(b, a)),
        _ => false,
    }
}

/// The newest of the builds that have objects.
pub open spec fn is_latest_build(objects: Seq<MetaView>, latest: Option<Seq<char>>) -> bool {
    match latest {
        Some(build) => {
            &&& build_modified(objects, build) is Some
            &&& forall|other: Seq<char>| !#[trigger] is_newer(objects, other, build)
        },
        None => forall|build: Seq<char>| #[trigger] build_modified(objects, build) is None,
    }
}

/// A build has objects, is not the newest, and is not to be kept.
pub open spec fn is_outdated(
    objects: Seq<MetaView>,
    excluded: Seq<Seq<char>>,
    latest: Option<Seq<char>>,
    build: Seq<char>,
) -> bool {
    &&& build_modified(objects, build) is Some
    &&& latest != Some(build)
    &&& !excluded.contains(build)
}

/// Each text comes before those behind it.
pub open spec fn is_ascending(texts: Seq<Seq<char>>) -> bool {
    forall|i: int, j: int|
        0 <= i < j < texts.len() ==> text_less(#[trigger] texts[i], #[trigger] texts[j])
}

/// The newest build, and the outdated ones in ascending order.
pub open spec fn is_selection(
    objects: Seq<MetaView>,
    excluded: Seq<Seq<char>>,
    latest: Option<Seq<char>>,
    outdated: Seq<Seq<char>>,
) -> bool {
    &&& is_latest_build(objects, latest)
    &&& is_ascending(outdated)
    &&& forall|build: Seq<char>| #[trigger]
        outdated.contains(build) <==> is_outdated(objects, excluded, latest, build)
}

/// Builds, each with the time of its newest object.
struct BuildTable {
    names: Vec<String>,
    times: Vec<i64>,
    index: StringHashMap<usize>,
}

impl BuildTable {
    spec fn well_formed(self) -> bool {
        &&& self.names@.len() == self.times@.len()
        &&& forall|i: int|
            0 <= i < self.names@.len() ==> self.index@.contains_pair(
                #[trigger] self.names@[i]@,
                i as usize,
            )
        &&& forall|name: Seq<char>| #[trigger]
            self.index@.contains_key(name) ==> self.index@[name] < self.names@.len()
                && self.names@[self.index@[name] as int]@ == name
    }

    spec fn time(self, build: Seq<char>) -> Option<i64> {
        if self.index@.contains_key(build) {
            Some(self.times@[self.index@[build] as int])
        } else {
            None
        }
    }

    /// The table holds what objects say of builds.
    spec fn describes(self, objects: Seq<MetaView>) -> bool {
        &&& self.well_formed()
        &&& forall|build: Seq<char>|
            #![trigger self.time(build)]
            #![trigger build_modified(objects, build)]
            self.time(build) == build_modified(objects, build)
    }

    /// Takes in an object of a build.
    fn note(&mut self, build: String, time: i64)
        requires
            old(self).well_formed(),
        ensures
            final(self).well_formed(),
            forall|other: Seq<char>| #[trigger]
                final(self).time(other) == if other == build@ {
                    Some(later(old(self).time(other), time))
                } else {
                    old(self).time(other)
                },
    {
        let found: Option<usize> = match self.index.get(build.as_str()) {
            Some(i) => Some(*i),
            None => None,
        };
        match found {
            Some(i) => {
                if self.times[i] < time {
                    self.times[i] = time;
                }
            },
            None => {
                let i: usize = self.names.len();
                self.index.insert(build.clone(), i);
                self.names.push(build);
                self.times.push(time);
            },
        }
    }
}

/// What objects say of builds.
fn tabulate(objects: &[StoredObjectMeta]) -> (table: BuildTable)
    ensures
        table.describes(metas_view(objects@)),
{
    let ghost metas = metas_view(objects@);
    let mut table = BuildTable {
        names: Vec::new(),
        times: Vec::new(),
        index: StringHashMap::new(),
    };
    let mut i: usize = 0;
    while i < objects.len()
        invariant
            i <= objects@.len(),
            metas == metas_view(objects@),
            table.describes(metas.take(i as int)),
        decreases objects@.len() - i,
    {
        assert(metas.take(i + 1).drop_last() == metas.take(i as int));
        match parse_sourcemap_key(objects[i].key.as_str()) {
            Some((build, _)) => {
                let time: i64 = match objects[i].last_modified_epoch_seconds {
                    Some(seconds) => seconds,
                    None => i64::MIN,
                };
                table.note(build, time);
            },
            None => {},
        }
        i += 1;
    }
    assert(metas.take(i as int) == metas);
    table
}

/// The place of the newest build in a table.
fn latest_in(table: &BuildTable, Ghost(objects): Ghost<Seq<MetaView>>) -> (latest: Option<usize>)
    requires
        table.describes(objects),
    ensures
        match latest {
            Some(i) => i < table.names@.len() && is_latest_build(
                objects,
                Some(table.names@[i as int]@),
            ),
            None => table.names@.len() == 0 && is_latest_build(objects, None),
        },
{
    if table.names.len() == 0 {
        return None;
    }
    let mut best: usize = 0;
    let mut i: usize = 1;
    let ghost names = texts_view(table.names@);
    proof {
        lemma_text_less_irreflexive(names[0]);
    }
    while i < table.names.len()
        invariant
            best < i <= table.names@.len(),
            names == texts_view(table.names@),
            table.describes(objects),
            forall|k: int|
                0 <= k < i ==> !is_newer(objects, #[trigger] names[k], names[best as int]),
        decreases table.names@.len() - i,
    {
        let ghost (a, b) = (names[i as int], names[best as int]);
        let newer = table.times[i] > table.times[best] || (table.times[i] == table.times[best]
            && comes_before(table.names[best].as_str(), table.names[i].as_str()));
        proof {
            assert forall|k: int| 0 <= k < i + 1 && newer implies !is_newer(
                objects,
                #[trigger] names[k],
                a,
            ) by {
                let c = names[k];
                lemma_text_less_irreflexive(a);
                if k < i && is_newer(objects, c, a) {
                    if text_less(b, a) && text_less(a, c) {
                        lemma_text_less_transitive(b, a, c);
                    }
                }
            }
        }
        if newer {
            best = i;
        }
        i += 1;
    }
    proof {
        let build = names[best as int];
        assert forall|other: Seq<char>| !#[trigger] is_newer(objects, other, build) by {
            if table.index@.contains_key(other) {
                let k = table.index@[other] as int;
                assert(names[k] == other);
            }
        }
    }
    Some(best)
}

/// Sorting keeps which texts there are; where none is there twice, it leaves
/// them in ascending order.
proof fn lemma_sorted_distinct(texts: Seq<Seq<char>>, sorted: Seq<Seq<char>>)
    requires
        is_sorted_form(texts, sorted),
        texts.no_duplicates(),
    ensures
        is_ascending(sorted),
        forall|text: Seq<char>| #[trigger] sorted.contains(text) <==> texts.contains(text),
{
    broadcast use vstd::seq_lib::group_to_multiset_ensures;

    texts.lemma_multiset_has_no_duplicates();
    sorted.lemma_multiset_has_no_duplicates_conv();
    assert forall|i: int, j: int| 0 <= i < j < sorted.len() implies text_less(
        #[trigger] sorted[i],
        #[trigger] sorted[j],
    ) by {
        lemma_text_less_total(sorted[i], sorted[j]);
    }
    assert forall|text: Seq<char>| #[trigger] sorted.contains(text) <==> texts.contains(text) by {
        assert(sorted.contains(text) <==> sorted.to_multiset().count(text) > 0);
    }
}

/// The newest build among the builds of stored objects, and the builds that
/// can go: all but the newest and those that are excluded.
pub fn select_builds_for_cleanup(
    objects: &[StoredObjectMeta],
    excluded_build_ids: &[String],
) -> (selection: (Option<String>, Vec<String>))
    ensures
        is_selection(
            metas_view(objects@),
            texts_view(excluded_build_ids@),
            text_view(selection.0),
            texts_view(selection.1@),
        ),
{
    let ghost metas = metas_view(objects@);
    let ghost excluded = texts_view(excluded_build_ids@);
    let table = tabulate(objects);
    let latest = latest_in(&table, Ghost(metas));
    let latest_id = match latest {
        Some(i) => Some(table.names[i].clone()),
        None => None,
    };
    let kept = text_set(excluded_build_ids);
    let ghost names = texts_view(table.names@);
    let mut outdated: Vec<String> = Vec::new();
    let mut i: usize = 0;
    while i < table.names.len()
        invariant
            i <= table.names@.len(),
            names == texts_view(table.names@),
            table.describes(metas),
            latest is None ==> table.names@.len() == 0,
            latest matches Some(l) ==> l < table.names@.len() && text_view(latest_id) == Some(
                names[l as int],
            ),
            forall|id: Seq<char>| #[trigger] kept@.contains(id) <==> excluded.contains(id),
            texts_view(outdated@).no_duplicates(),
            forall|id: Seq<char>| #[trigger]
                texts_view(outdated@).contains(id) <==> exists|k: int|
                    0 <= k < i && #[trigger] names[k] == id && is_outdated(
                        metas,
                        excluded,
                        text_view(latest_id),
                        id,
                    ),
        decreases table.names@.len() - i,
    {
        let ghost so_far = texts_view(outdated@);
        let ghost name = names[i as int];
        let is_latest = match latest {
            Some(l) => l == i,
            None => false,
        };
        let keep = is_latest || kept.contains(table.names[i].as_str());
        if !keep {
            outdated.push(table.names[i].clone());
            assert(texts_view(outdated@) == so_far.push(name));
            assert(!so_far.contains(name));
        }
        proof {
            let now = texts_view(outdated@);
            assert forall|id: Seq<char>| #[trigger] now.contains(id) <==> exists|k: int|
                0 <= k < i + 1 && #[trigger] names[k] == id && is_outdated(
                    metas,
                    excluded,
                    text_view(latest_id),
                    id,
                ) by {
                if so_far.contains(id) {
                    let k = choose|k: int| 0 <= k < so_far.len() && so_far[k] == id;
                    assert(now[k] == id);
                }
                if !keep && id == name {
                    assert(now[so_far.len() as int] == id);
                }
            }
        }
        i += 1;
    }
    let sorted = sort_texts(outdated);
    proof {
        let before = texts_view(outdated@);
        lemma_sorted_distinct(before, texts_view(sorted@));
        assert forall|build: Seq<char>| #[trigger] texts_view(sorted@).contains(build)
            <==> is_outdated(metas, excluded, text_view(latest_id), build) by {
            if build_modified(metas, build) is Some {
                assert(names[table.index@[build] as int] == build);
            }
        }
    }
    (latest_id, sorted)
}

/// The texts of a list as a set.
fn text_set(texts: &[String]) -> (set: StringHashSet)
    ensures
        forall|text: Seq<char>| #[trigger]
            set@.contains(text) <==> texts_view(texts@).contains(text),
{
    let ghost all = texts_view(texts@);
    let mut set = StringHashSet::new();
    let mut i: usize = 0;
    while i < texts.len()
        invariant
            i <= texts@.len(),
            all == texts_view(texts@),
            forall|text: Seq<char>| #[trigger]
                set@.contains(text) <==> exists|k: int| 0 <= k < i && #[trigger] all[k] == text,
        decreases texts@.len() - i,
    {
        set.insert(texts[i].clone());
        assert(all[i as int] == texts@[i as int]@);
        i += 1;
    }
    set
}

// ---------------------------------------------------------------------------
// Serving requests
// ---------------------------------------------------------------------------

/// The answer to the question whether the service runs.
pub fn health() -> (answer: &'static str)
    ensures
        answer@ == "ok"@,
{
    "ok"
}

/// An upload that passed the checks.
pub struct IngestPlan {
    pub mapping_type: MappingType,
    pub build_id: String,
    pub uploaded_at: String,
    /// What is to be stored, each with its file name.
    pub files: Vec<(String, String)>,
}

pub struct PlanView {
    pub mapping_type: MappingType,
    pub build_id: Seq<char>,
    pub uploaded_at: Seq<char>,
    pub files: Seq<FileView>,
}

impl View for IngestPlan {
    type V = PlanView;

    open spec fn view(&self) -> PlanView {
        PlanView {
            mapping_type: self.mapping_type,
            build_id: self.build_id@,
            uploaded_at: self.uploaded_at@,
            files: files_view(self.files@),
        }
    }
}

/// Takes the files out of an upload of source maps.
fn take_sourcemaps(entries: Vec<SourcemapEntry>) -> (files: Vec<(String, String)>)
    ensures
        files_view(files@) == sourcemap_files(entries@),
        are_uploaded_sourcemaps(files@, entries@),
{
    let ghost all = sourcemap_files(entries@);
    let mut files: Vec<(String, String)> = Vec::new();
    let mut i: usize = 0;
    while i < entries.len()
        invariant
            i <= entries@.len(),
            all == sourcemap_files(entries@),
            files_view(files@) == all.take(i as int),
            files@.len() == i,
            forall|k: int|
                0 <= k < i ==> (#[trigger] files@[k]).0@ == entries@[k].file_name@ && files@[k].1@
                    == entries@[k].sourcemap@,
        decreases entries@.len() - i,
    {
        let ghost so_far = files_view(files@);
        files.push((entries[i].file_name.clone(), entries[i].sourcemap.clone()));
        assert(files_view(files@) == so_far.push(all[i as int]));
        i += 1;
    }
    files
}

/// Checks an upload, and finds what is to be stored of it.
pub fn ingest(payload: IngestPayload) -> (plan: Result<IngestPlan, AppError>)
    ensures
        match payload {
            IngestPayload::JavaScript { build_id, bundler: _, uploaded_at, sourcemaps } => {
                let files = sourcemap_files(sourcemaps@);
                match js_ingest_check(build_id@, uploaded_at@, files) {
                    Ok(_) => plan matches Ok(plan) && plan.mapping_type == MappingType::JavaScript
                        && plan.build_id@ == build_id@ && plan.uploaded_at@ == uploaded_at@
                        && files_view(plan.files@) == files,
                    Err(error) => plan matches Err(e) && e@ == error,
                }
            },
            IngestPayload::Proguard { build_id, uploaded_at, file_name, mapping, mappings, files }
                => match proguard_upload(
                build_id@,
                uploaded_at@,
                text_view(file_name),
                text_view(mapping),
                proguard_files(mappings@) + proguard_files(files@),
            ) {
                Ok(files) => plan matches Ok(plan) && plan.mapping_type == MappingType::Proguard
                    && plan.build_id@ == build_id@ && plan.uploaded_at@ == uploaded_at@
                    && files_view(plan.files@) == files,
                Err(error) => plan matches Err(e) && e@ == error,
            },
        },
        plan matches Ok(plan) ==> match payload {
            IngestPayload::JavaScript { sourcemaps, .. } => are_uploaded_sourcemaps(
                plan.files@,
                sourcemaps@,
            ),
            IngestPayload::Proguard { file_name, mapping, mappings, files, .. }
                => are_uploaded_mappings(plan.files@, file_name, mapping, mappings@, files@),
        },
{
    match payload {
        IngestPayload::JavaScript { build_id, bundler: _, uploaded_at, sourcemaps } => {
            match validate_js_ingest(
                build_id.as_str(),
                uploaded_at.as_str(),
                sourcemaps.as_slice(),
            ) {
                Ok(_) => {},
                Err(error) => {
                    return Err(error);
                },
            }
            Ok(
                IngestPlan {
                    mapping_type: MappingType::JavaScript,
                    build_id,
                    uploaded_at,
                    files: take_sourcemaps(sourcemaps),
                },
            )
        },
        IngestPayload::Proguard { build_id, uploaded_at, file_name, mapping, mappings, files } => {
            match normalize_proguard_entries(
                build_id.as_str(),
                uploaded_at.as_str(),
                &file_name,
                &mapping,
                mappings.as_slice(),
                files.as_slice(),
            ) {
                Ok(files) => Ok(
                    IngestPlan {
                        mapping_type: MappingType::Proguard,
                        build_id,
                        uploaded_at,
                        files,
                    },
                ),
                Err(error) => Err(error),
            }
        },
    }
}

impl PlanView {
    /// Where a file of the upload is stored.
    pub open spec fn key(self, project_id: ProjectId, file_name: Seq<char>) -> Seq<char> {
        match self.mapping_type {
            MappingType::JavaScript => object_key(project_id, self.build_id, file_name),
            MappingType::Proguard => mapping_key(project_id, self.build_id, file_name),
        }
    }
}

/// An object is made of a file of an upload: its key of the project, the build
/// and the name, a mapping file in a directory of its own, and its body stands
/// for the content of that file.
pub open spec fn is_stored_as(
    storage: Storage,
    project_id: ProjectId,
    plan: IngestPlan,
    file: (String, String),
    object: PutObject,
) -> bool {
    &&& object.bucket@ == storage.bucket()
    &&& object.key@ == joined_key(
        project_id.text(),
        plan.build_id@,
        match plan.mapping_type {
            MappingType::JavaScript => file.0@,
            MappingType::Proguard => "proguard/"@ + file.0@,
        },
    )
    &&& stored_content(storage.key(), object.body@) == Ok::<_, ErrorView>(encode_utf8(file.1@))
}

impl IngestPlan {
    /// The object to store next, when `done` files are stored.
    pub fn next_object(
        &self,
        storage: &Storage,
        project_id: ProjectId,
        done: usize,
    ) -> (next: Result<Option<PutObject>, AppError>)
        ensures
            if done < self@.files.len() {
                let (file_name, content) = self@.files[done as int];
                put_next(*storage, self@.key(project_id, file_name), encode_utf8(content), next)
            } else {
                next matches Ok(None)
            },
            next matches Ok(Some(object)) ==> done < self.files@.len() && is_stored_as(
                *storage,
                project_id,
                *self,
                self.files@[done as int],
                object,
            ),
    {
        proof {
            law_stored_keys_are_file_keys(
                project_id,
                self.build_id@,
                self.files@[done as int].0@,
            );
        }
        match self.mapping_type {
            MappingType::JavaScript => javascript::ingest(
                storage,
                project_id,
                self.build_id.as_str(),
                self.files.as_slice(),
                done,
            ),
            MappingType::Proguard => proguard::ingest(
                storage,
                project_id,
                self.build_id.as_str(),
                self.files.as_slice(),
                done,
            ),
        }
    }

    /// The answer once all is stored.
    pub fn response(&self) -> (response: IngestResponse)
        ensures
            response.ok,
            response.ingested_count == self@.files.len(),
    {
        IngestResponse { ok: true, ingested_count: self.files.len() }
    }
}

/// That a project has a build, and since when.
pub struct BuildRecord {
    pub project_id: ProjectId,
    pub build_id: String,
    pub uploaded_at: String,
}

/// An upload at the point where one of its files is being stored.
pub struct PendingPut {
    plan: IngestPlan,
    project_id: ProjectId,
    done: usize,
}

pub struct PendingPutView {
    pub plan: PlanView,
    pub project_id: ProjectId,
    /// How many files were stored before.
    pub done: nat,
}

impl View for PendingPut {
    type V = PendingPutView;

    closed spec fn view(&self) -> PendingPutView {
        PendingPutView {
            plan: self.plan@,
            project_id: self.project_id,
            done: self.done as nat,
        }
    }
}

/// An upload at the point where all its files are stored, and its build is
/// being recorded.
pub struct PendingRecord {
    plan: IngestPlan,
}

impl View for PendingRecord {
    type V = PlanView;

    closed spec fn view(&self) -> PlanView {
        self.plan@
    }
}

/// What comes next of an upload.
pub enum IngestNext {
    /// Store an object.
    Put(PutObject, PendingPut),
    /// Record the build.
    Record(BuildRecord, PendingRecord),
}

/// What comes next of an upload when `done` files are stored: the object of the
/// next file, or, behind the last one, the record of the build.
pub open spec fn ingest_next(
    storage: Storage,
    project_id: ProjectId,
    plan: PlanView,
    done: nat,
    next: Result<IngestNext, AppError>,
) -> bool {
    if done < plan.files.len() {
        let (file_name, content) = plan.files[done as int];
        let key = plan.key(project_id, file_name);
        match next {
            Ok(IngestNext::Put(object, pending)) => {
                &&& storage.is_put(key, encode_utf8(content), Ok(object))
                &&& pending@ == (PendingPutView { plan, project_id, done })
            },
            Ok(IngestNext::Record(..)) => false,
            Err(error) => storage.is_put(key, encode_utf8(content), Err(error)),
        }
    } else {
        next matches Ok(IngestNext::Record(record, pending)) && record.project_id == project_id
            && record.build_id@ == plan.build_id && record.uploaded_at@ == plan.uploaded_at
            && pending@ == plan
    }
}

impl IngestPlan {
    /// Starts to store the upload.
    pub fn begin(self, storage: &Storage, project_id: ProjectId) -> (next: Result<
        IngestNext,
        AppError,
    >)
        ensures
            ingest_next(*storage, project_id, self@, 0, next),
    {
        self.resume(storage, project_id, 0)
    }

    fn resume(self, storage: &Storage, project_id: ProjectId, done: usize) -> (next: Result<
        IngestNext,
        AppError,
    >)
        ensures
            ingest_next(*storage, project_id, self@, done as nat, next),
    {
        match self.next_object(storage, project_id, done) {
            Ok(Some(object)) => Ok(
                IngestNext::Put(object, PendingPut { plan: self, project_id, done }),
            ),
            Ok(None) => {
                let record = BuildRecord {
                    project_id,
                    build_id: self.build_id.clone(),
                    uploaded_at: self.uploaded_at.clone(),
                };
                Ok(IngestNext::Record(record, PendingRecord { plan: self }))
            },
            Err(error) => Err(error),
        }
    }
}

impl PendingPut {
    #[verifier::type_invariant]
    spec fn in_range(self) -> bool {
        self.done < self.plan.files.len()
    }

    /// Takes in the reply to the request. A failure ends the upload.
    pub fn confirm(self, storage: &Storage, reply: Result<(), S3Failure>) -> (next: Result<
        IngestNext,
        AppError,
    >)
        ensures
            match reply {
                Ok(_) => ingest_next(
                    *storage,
                    self@.project_id,
                    self@.plan,
                    self@.done + 1,
                    next,
                ),
                Err(failure) => next matches Err(error) && error@ == failure.error(),
            },
    {
        proof {
            use_type_invariant(&self);
        }
        match reply {
            Ok(_) => self.plan.resume(storage, self.project_id, self.done + 1),
            Err(failure) => Err(s3_error(failure)),
        }
    }
}

impl PendingRecord {
    /// What was uploaded.
    pub fn plan(&self) -> (plan: &IngestPlan)
        ensures
            plan@ == self@,
    {
        &self.plan
    }

    /// Takes in whether the build was recorded, or the wording of the failure.
    pub fn confirm(self, reply: Result<(), String>) -> (response: Result<IngestResponse, AppError>)
        ensures
            match reply {
                Ok(_) => response matches Ok(response) && response.ok && response.ingested_count
                    == self@.files.len(),
                Err(text) => response matches Err(error) && error@ == ErrorView::Database(text@),
            },
    {
        match reply {
            Ok(_) => Ok(self.plan.response()),
            Err(text) => Err(AppError::Database(text)),
        }
    }
}

/// A step of an upload is taken after another one, whose request succeeded.
pub open spec fn ingest_goes_on(
    storage: Storage,
    step: Result<IngestNext, AppError>,
    next: Result<IngestNext, AppError>,
) -> bool {
    step matches Ok(IngestNext::Put(_, pending)) && ingest_next(
        storage,
        pending@.project_id,
        pending@.plan,
        pending@.done + 1,
        next,
    )
}

/// An upload stores its files one by one, in their order, and records its build
/// only when each of them is stored.
pub proof fn law_build_is_recorded_last(
    storage: Storage,
    project_id: ProjectId,
    plan: PlanView,
    steps: Seq<Result<IngestNext, AppError>>,
)
    requires
        steps.len() > 0,
        ingest_next(storage, project_id, plan, 0, steps[0]),
        forall|i: int, j: int|
            0 <= i < steps.len() - 1 && j == i + 1 ==> ingest_goes_on(
                storage,
                #[trigger] steps[i],
                #[trigger] steps[j],
            ),
    ensures
        steps.len() <= plan.files.len() + 1,
        forall|i: int|
            0 <= i < steps.len() ==> ingest_next(
                storage,
                project_id,
                plan,
                i as nat,
                #[trigger] steps[i],
            ),
        forall|i: int|
            0 <= i < steps.len() - 1 ==> #[trigger] steps[i] matches Ok(IngestNext::Put(..)),
        steps.last() matches Ok(IngestNext::Record(..)) ==> steps.len() == plan.files.len() + 1,
    decreases steps.len(),
{
    if steps.len() > 1 {
        let before = steps.drop_last();
        law_build_is_recorded_last(storage, project_id, plan, before);
        let i = steps.len() - 2;
        assert(before[i] == steps[i]);
        assert(ingest_goes_on(storage, steps[i], steps[i + 1]));
        assert forall|k: int| 0 <= k < steps.len() implies ingest_next(
            storage,
            project_id,
            plan,
            k as nat,
            #[trigger] steps[k],
        ) by {
            if k <= i {
                assert(before[k] == steps[k]);
            }
        }
        assert forall|k: int| 0 <= k < steps.len() - 1 implies #[trigger] steps[k] matches Ok(
            IngestNext::Put(..),
        ) by {
            assert(ingest_goes_on(storage, steps[k], steps[k + 1]));
        }
    }
}

/// Starts to delete all that a project has stored.
pub fn wipe(storage: &Storage, project_id: ProjectId) -> (deletion: PrefixDeletion)
    ensures
        deletion@ == (PrefixDeletionView {
            request: storage.list_request(project_prefix(project_id)),
            deleted: 0,
        }),
{
    storage.delete_prefix(prefix_of(project_id).as_str())
}

/// The answer once all is deleted. No rows go with the files.
pub fn wipe_response(deleted_files: u64) -> (response: WipeResponse)
    ensures
        response.ok,
        response.deleted_files == deleted_files,
        response.deleted_rows == 0,
{
    WipeResponse { ok: true, deleted_files, deleted_rows: 0 }
}

/// Starts to delete one stored file of a project.
pub fn delete_sourcemap(
    storage: &Storage,
    project_id: ProjectId,
    payload: &DeleteSourcemapPayload,
) -> (deletion: Result<KeyDeletion, AppError>)
    ensures
        match checked_key(project_id, payload.s3_key@) {
            Ok(key) => deletion matches Ok(deletion) && deletion@ == (KeyDeletionView {
                bucket: storage.bucket(),
                keys: seq![key],
                done: 0,
            }),
            Err(error) => deletion matches Err(e) && e@ == error,
        },
{
    match validate_project_sourcemap_key(project_id, payload.s3_key.as_str()) {
        Ok(key) => {
            let mut keys: Vec<String> = Vec::new();
            keys.push(key);
            assert(texts_view(keys@) == seq![key@]);
            Ok(storage.delete_keys(keys))
        },
        Err(error) => Err(error),
    }
}

/// The answer once the file is deleted.
pub fn delete_response(deletion: &KeyDeletion) -> (response: DeleteSourcemapResponse)
    ensures
        response.ok,
        response.deleted_files == deletion@.done,
{
    DeleteSourcemapResponse { ok: true, deleted_files: deletion.deleted() }
}

/// Starts to list what a project has stored.
pub fn list_sourcemaps(storage: &Storage, project_id: ProjectId) -> (listing: Listing)
    ensures
        listing@ == (ListingView {
            request: storage.list_request(project_prefix(project_id)),
            objects: seq![],
        }),
{
    storage.list_prefix_objects(prefix_of(project_id).as_str())
}

/// What has to be fetched to trace something back to its source.
pub enum Application {
    /// One source map.
    JavaScript { object: GetObject, file_name: String, line: u32, column: u32 },
    /// All mapping files of a build, once their keys are listed.
    Proguard { listing: KeyListing, stacktrace: String },
}

/// Checks what is to be traced back, and finds where to start.
pub fn apply_sourcemap(
    storage: &Storage,
    project_id: ProjectId,
    payload: ApplyPayload,
) -> (start: Result<Application, AppError>)
    ensures
        match payload {
            ApplyPayload::JavaScript { build_id, file_name, line, column } => match both(
                non_empty("build_id"@, build_id@),
                non_empty("file_name"@, file_name@),
            ) {
                Ok(_) => start matches Ok(
                    Application::JavaScript { object, file_name: f, line: l, column: c },
                ) && object.bucket@ == storage.bucket() && object.key@ == object_key(
                    project_id,
                    build_id@,
                    map_file(file_name@),
                ) && f@ == file_name@ && l == line && c == column,
                Err(error) => start matches Err(e) && e@ == error,
            },
            ApplyPayload::Proguard { build_id, stacktrace } => match both(
                non_empty("build_id"@, build_id@),
                non_empty("stacktrace"@, stacktrace@),
            ) {
                Ok(_) => start matches Ok(Application::Proguard { listing, stacktrace: s })
                    && listing.listing@ == (ListingView {
                    request: storage.list_request(mapping_prefix(project_id, build_id@)),
                    objects: seq![],
                }) && s@ == stacktrace@,
                Err(error) => start matches Err(e) && e@ == error,
            },
        },
{
    match payload {
        ApplyPayload::JavaScript { build_id, file_name, line, column } => {
            match require_non_empty("build_id", build_id.as_str()) {
                Ok(_) => {},
                Err(error) => {
                    return Err(error);
                },
            }
            match require_non_empty("file_name", file_name.as_str()) {
                Ok(_) => {},
                Err(error) => {
                    return Err(error);
                },
            }
            let map_file = map_file_name(file_name.as_str());
            let key = s3_key(project_id, build_id.as_str(), map_file.as_str());
            Ok(
                Application::JavaScript {
                    object: storage.get(key.as_str()),
                    file_name,
                    line,
                    column,
                },
            )
        },
        ApplyPayload::Proguard { build_id, stacktrace } => {
            match require_non_empty("build_id", build_id.as_str()) {
                Ok(_) => {},
                Err(error) => {
                    return Err(error);
                },
            }
            match require_non_empty("stacktrace", stacktrace.as_str()) {
                Ok(_) => {},
                Err(error) => {
                    return Err(error);
                },
            }
            let prefix = proguard_s3_prefix(project_id, build_id.as_str());
            Ok(
                Application::Proguard {
                    listing: storage.list_prefix_keys(prefix.as_str()),
                    stacktrace,
                },
            )
        },
    }
}

/// The answer for a place in a script, from the content of its source map.
/// There is none where [`javascript::apply_checked`] gives none.
pub fn javascript_response(
    data: &[u8],
    file_name: &str,
    line: u32,
    column: u32,
) -> (response: Option<Result<ApplyResponse, AppError>>)
    ensures
        match response {
            Some(Ok(ApplyResponse::JavaScript { ok, original })) => ok && is_applied(
                parsed_source_map(data@),
                line,
                column,
                Ok(original@),
            ),
            Some(Ok(ApplyResponse::Proguard { .. })) => false,
            Some(Err(error)) => is_applied(parsed_source_map(data@), line, column, Err(error@)),
            None => has_closest_beyond(parsed_source_map(data@), line, column),
        },
{
    match javascript::apply_checked(data, file_name, line, column) {
        Some(Ok(original)) => Some(Ok(ApplyResponse::JavaScript { ok: true, original })),
        Some(Err(error)) => Some(Err(error)),
        None => None,
    }
}

/// The mapping files to fetch, in order. A build without any is not known.
pub fn mapping_keys(keys: Vec<String>) -> (sorted: Result<Vec<String>, AppError>)
    ensures
        match sorted {
            Ok(sorted) => keys@.len() > 0 && is_sorted_form(
                texts_view(keys@),
                texts_view(sorted@),
            ),
            Err(error) => keys@.len() == 0 && error is NotFound,
        },
{
    if keys.len() == 0 {
        return Err(AppError::NotFound);
    }
    Ok(sort_texts(keys))
}

/// The answer for a stack trace, from the contents of the mapping files.
pub fn proguard_response(mappings: &[&[u8]], stacktrace: &str) -> (response: Result<
    ApplyResponse,
    AppError,
>)
    ensures
        match retraced_with(mappings@.map_values(|part: &[u8]| part@), stacktrace@) {
            Ok(text) => response matches Ok(ApplyResponse::Proguard { ok, stacktrace }) && ok
                && stacktrace@ == text,
            Err(error) => response matches Err(e) && e@ == error,
        },
{
    match retrace_stacktrace(mappings, stacktrace) {
        Ok(stacktrace) => Ok(ApplyResponse::Proguard { ok: true, stacktrace }),
        Err(error) => Err(error),
    }
}

/// Tracing a stack trace back, at the point where a mapping file is waited for.
pub struct MappingFetch {
    keys: Vec<String>,
    contents: Vec<Vec<u8>>,
    stacktrace: String,
}

pub struct MappingFetchView {
    /// The mapping files, in the order in which they are read.
    pub keys: Seq<Seq<char>>,
    /// The contents of those that have come.
    pub contents: Seq<Seq<u8>>,
    pub stacktrace: Seq<char>,
}

pub open spec fn contents_view(contents: Seq<Vec<u8>>) -> Seq<Seq<u8>> {
    contents.map_values(|content: Vec<u8>| content@)
}

impl View for MappingFetch {
    type V = MappingFetchView;

    closed spec fn view(&self) -> MappingFetchView {
        MappingFetchView {
            keys: texts_view(self.keys@),
            contents: contents_view(self.contents@),
            stacktrace: self.stacktrace@,
        }
    }
}

/// What comes next when mapping files are fetched.
pub enum MappingNext {
    /// Ask for a file.
    Fetch(MappingFetch),
    /// All have come.
    Done(ApplyResponse),
}

pub enum MappingStep {
    Fetch(MappingFetchView),
    /// The stack trace that comes out, or why there is none.
    Done(Result<Seq<char>, ErrorView>),
}

impl MappingFetchView {
    /// What comes next after a reply, where objects are encrypted under a key.
    /// The last file completes the mapping; a failure ends it all.
    pub open spec fn step(self, key: Seq<u8>, reply: GetReply) -> MappingStep {
        match fetched(key, reply) {
            Ok(content) => {
                let contents = self.contents.push(content);
                if contents.len() < self.keys.len() {
                    MappingStep::Fetch(MappingFetchView { contents, ..self })
                } else {
                    MappingStep::Done(retraced_with(contents, self.stacktrace))
                }
            },
            Err(error) => MappingStep::Done(Err(error)),
        }
    }

    /// What comes out over a run of replies, if the last one ends it.
    pub open spec fn run(self, key: Seq<u8>, replies: Seq<GetReply>) -> Option<
        Result<Seq<char>, ErrorView>,
    >
        decreases replies.len(),
    {
        if replies.len() == 0 {
            None
        } else {
            match self.step(key, replies.first()) {
                MappingStep::Fetch(next) => next.run(key, replies.drop_first()),
                MappingStep::Done(result) => if replies.len() == 1 {
                    Some(result)
                } else {
                    None
                },
            }
        }
    }
}

/// Starts to fetch the mapping files of a build, in the order of their keys. A
/// build without any is not known.
pub fn fetch_mappings(keys: Vec<String>, stacktrace: String) -> (fetch: Result<
    MappingFetch,
    AppError,
>)
    ensures
        match fetch {
            Ok(fetch) => keys@.len() > 0 && is_sorted_form(texts_view(keys@), fetch@.keys)
                && fetch@.contents == Seq::<Seq<u8>>::empty() && fetch@.stacktrace == stacktrace@,
            Err(error) => keys@.len() == 0 && error is NotFound,
        },
{
    match mapping_keys(keys) {
        Ok(sorted) => {
            proof {
                texts_view(keys@).to_multiset_ensures();
                texts_view(sorted@).to_multiset_ensures();
            }
            Ok(MappingFetch { keys: sorted, contents: Vec::new(), stacktrace })
        },
        Err(error) => Err(error),
    }
}

impl MappingFetch {
    #[verifier::type_invariant]
    spec fn in_range(self) -> bool {
        self.contents@.len() < self.keys@.len()
    }

    /// The request for the file that is waited for.
    pub fn request(&self, storage: &Storage) -> (object: GetObject)
        ensures
            self@.contents.len() < self@.keys.len(),
            object.bucket@ == storage.bucket(),
            object.key@ == self@.keys[self@.contents.len() as int],
    {
        proof {
            use_type_invariant(self);
        }
        storage.get(self.keys[self.contents.len()].as_str())
    }

    /// Takes in the reply to the request.
    pub fn receive(self, storage: &Storage, reply: GetReply) -> (next: Result<
        MappingNext,
        AppError,
    >)
        ensures
            match self@.step(storage.key(), reply) {
                MappingStep::Fetch(fetch) => next matches Ok(MappingNext::Fetch(next)) && next@
                    == fetch,
                MappingStep::Done(Ok(text)) => next matches Ok(
                    MappingNext::Done(ApplyResponse::Proguard { ok, stacktrace }),
                ) && ok && stacktrace@ == text,
                MappingStep::Done(Err(error)) => next matches Err(e) && e@ == error,
            },
    {
        proof {
            use_type_invariant(&self);
        }
        let content = match storage.received(reply) {
            Ok(content) => content,
            Err(error) => {
                return Err(error);
            },
        };
        let ghost before = self@;
        let MappingFetch { keys, mut contents, stacktrace } = self;
        contents.push(content);
        assert(contents_view(contents@) =~= before.contents.push(content@));
        if contents.len() < keys.len() {
            return Ok(MappingNext::Fetch(MappingFetch { keys, contents, stacktrace }));
        }
        let mut parts: Vec<&[u8]> = Vec::new();
        let mut i: usize = 0;
        while i < contents.len()
            invariant
                i <= contents@.len(),
                parts@.map_values(|part: &[u8]| part@) == contents_view(contents@).take(i as int),
            decreases contents@.len() - i,
        {
            let ghost so_far = parts@.map_values(|part: &[u8]| part@);
            parts.push(contents[i].as_slice());
            assert(parts@.map_values(|part: &[u8]| part@) == so_far.push(contents@[i as int]@));
            i += 1;
        }
        assert(parts@.map_values(|part: &[u8]| part@) == contents_view(contents@));
        match proguard_response(parts.as_slice(), stacktrace.as_str()) {
            Ok(response) => Ok(MappingNext::Done(response)),
            Err(error) => Err(error),
        }
    }
}

/// A stack trace is traced back with the contents of all mapping files, in the
/// order of their keys.
pub proof fn law_mappings_are_read_in_order(
    fetch: MappingFetchView,
    key: Seq<u8>,
    replies: Seq<GetReply>,
    contents: Seq<Seq<u8>>,
)
    requires
        fetch.contents.len() < fetch.keys.len(),
        contents.len() == replies.len() == fetch.keys.len() - fetch.contents.len(),
        forall|i: int|
            0 <= i < replies.len() ==> fetched(key, #[trigger] replies[i]) == Ok::<_, ErrorView>(
                contents[i],
            ),
    ensures
        fetch.run(key, replies) == Some(retraced_with(fetch.contents + contents, fetch.stacktrace)),
    decreases replies.len(),
{
    let after = fetch.contents.push(contents[0]);
    if replies.len() > 1 {
        let next = MappingFetchView { contents: after, ..fetch };
        law_mappings_are_read_in_order(next, key, replies.drop_first(), contents.drop_first());
        assert(after + contents.drop_first() =~= fetch.contents + contents);
    } else {
        assert(after =~= fetch.contents + contents);
    }
}

/// Starts to list what a project has stored, to find what can go.
pub fn cleanup_old_builds(storage: &Storage, project_id: ProjectId) -> (listing: Listing)
    ensures
        listing@ == (ListingView {
            request: storage.list_request(project_prefix(project_id)),
            objects: seq![],
        }),
{
    storage.list_prefix_objects(prefix_of(project_id).as_str())
}

/// What a cleanup keeps and what it deletes.
pub struct CleanupPlan {
    pub latest_build_id: Option<String>,
    pub excluded_build_ids: Vec<String>,
    pub deleted_build_ids: Vec<String>,
    /// The keys of the objects that are to be deleted.
    pub keys: Vec<String>,
}

/// The keys of the objects that belong to one of some builds, in their order.
pub open spec fn keys_of_builds(objects: Seq<MetaView>, builds: Seq<Seq<char>>) -> Seq<Seq<char>>
    decreases objects.len(),
{
    if objects.len() == 0 {
        seq![]
    } else {
        let before = keys_of_builds(objects.drop_last(), builds);
        match key_parts(objects.last().key) {
            Some((build, _)) => if builds.contains(build) {
                before.push(objects.last().key)
            } else {
                before
            },
            None => before,
        }
    }
}

/// A build is one of those that are to be kept: one of the identifiers is its own, with
/// white space around it or without.
pub open spec fn is_excluded(ids: Seq<String>, build: Seq<char>) -> bool {
    build.len() > 0 && exists|k: int| 0 <= k < ids.len() && trim((#[trigger] ids[k])@) == build
}

proof fn lemma_cleanup_keeps_and_deletes(
    objects: Seq<StoredObjectMeta>,
    ids: Seq<String>,
    latest: Option<Seq<char>>,
    outdated: Seq<Seq<char>>,
)
    requires
        is_selection(metas_view(objects), normalized(texts_view(ids)), latest, outdated),
    ensures
        forall|i: int, build: Seq<char>|
            0 <= i < objects.len() && #[trigger] is_of_build(objects[i]@, build)
                ==> (keys_of_builds(metas_view(objects), outdated).contains(objects[i].key@)
                <==> latest != Some(build) && !is_excluded(ids, build)),
{
    let metas = metas_view(objects);
    let excluded = normalized(texts_view(ids));
    assert forall|i: int, build: Seq<char>|
        0 <= i < objects.len() && #[trigger] is_of_build(
            objects[i]@,
            build,
        ) implies (keys_of_builds(metas, outdated).contains(objects[i].key@) <==> latest != Some(
        build,
    ) && !is_excluded(ids, build)) by {
        let key = objects[i].key@;
        assert(metas[i] == objects[i]@);
        assert(keys_of(metas)[i] == key);
        lemma_of_build(metas[i], build);
        law_cleanup_deletes_outdated_alone(metas, excluded, latest, outdated, key);
        law_normalized_ids_are_the_same(texts_view(ids), build);
        assert(excluded.contains(build) <==> is_excluded(ids, build)) by {
            let texts = texts_view(ids);
            if is_excluded(ids, build) {
                let k = choose|k: int| 0 <= k < ids.len() && trim((#[trigger] ids[k])@) == build;
                assert(trim(texts[k]) == build);
            }
            if excluded.contains(build) {
                let k = choose|k: int| 0 <= k < texts.len() && trim(#[trigger] texts[k]) == build;
                assert(trim(ids[k]@) == build);
            }
        }
    }
}

/// Finds what can go of what a project has stored.
pub fn plan_cleanup(objects: &[StoredObjectMeta], payload: &CleanupPayload) -> (plan: CleanupPlan)
    ensures
        texts_view(plan.excluded_build_ids@) == normalized(
            texts_view(payload.excluded_build_ids@),
        ),
        is_selection(
            metas_view(objects@),
            texts_view(plan.excluded_build_ids@),
            text_view(plan.latest_build_id),
            texts_view(plan.deleted_build_ids@),
        ),
        texts_view(plan.keys@) == keys_of_builds(
            metas_view(objects@),
            texts_view(plan.deleted_build_ids@),
        ),
        forall|i: int, build: Seq<char>|
            0 <= i < objects@.len() && #[trigger] is_of_build(objects@[i]@, build) ==> (texts_view(
                plan.keys@,
            ).contains(objects@[i].key@) <==> text_view(plan.latest_build_id) != Some(build)
                && !is_excluded(payload.excluded_build_ids@, build)),
{
    let excluded_build_ids = normalized_build_ids(payload.excluded_build_ids.as_slice());
    let (latest_build_id, deleted_build_ids) = select_builds_for_cleanup(
        objects,
        excluded_build_ids.as_slice(),
    );
    let deleted_set = text_set(deleted_build_ids.as_slice());
    let ghost metas = metas_view(objects@);
    let ghost builds = texts_view(deleted_build_ids@);
    let mut keys: Vec<String> = Vec::new();
    let mut i: usize = 0;
    while i < objects.len()
        invariant
            i <= objects@.len(),
            metas == metas_view(objects@),
            forall|id: Seq<char>| #[trigger] deleted_set@.contains(id) <==> builds.contains(id),
            texts_view(keys@) == keys_of_builds(metas.take(i as int), builds),
        decreases objects@.len() - i,
    {
        assert(metas.take(i + 1).drop_last() == metas.take(i as int));
        match parse_sourcemap_key(objects[i].key.as_str()) {
            Some((build, _)) => {
                if deleted_set.contains(build.as_str()) {
                    keys.push(objects[i].key.clone());
                }
            },
            None => {},
        }
        i += 1;
    }
    assert(metas.take(i as int) == metas);
    proof {
        lemma_cleanup_keeps_and_deletes(
            objects@,
            payload.excluded_build_ids@,
            text_view(latest_build_id),
            builds,
        );
    }
    CleanupPlan { latest_build_id, excluded_build_ids, deleted_build_ids, keys }
}

impl CleanupPlan {
    /// The answer once the objects are deleted.
    pub fn response(self, deleted_files: u64) -> (response: CleanupResponse)
        ensures
            response.ok,
            response.latest_build_id == self.latest_build_id,
            response.excluded_build_ids == self.excluded_build_ids,
            response.deleted_build_ids == self.deleted_build_ids,
            response.deleted_files == deleted_files,
    {
        CleanupResponse {
            ok: true,
            latest_build_id: self.latest_build_id,
            excluded_build_ids: self.excluded_build_ids,
            deleted_build_ids: self.deleted_build_ids,
            deleted_files,
        }
    }
}

// ---------------------------------------------------------------------------
// Laws
// ---------------------------------------------------------------------------

/// The build and the file name under which a file is stored are found again
/// in its key, if the build has no slash in it.
pub proof fn law_key_parts_round_trip(
    project_id: ProjectId,
    build_id: Seq<char>,
    file_name: Seq<char>,
)
    requires
        !build_id.contains('/'),
    ensures
        key_parts(object_key(project_id, build_id, file_name)) == Some((build_id, file_name)),
{
    reveal_strlit("/");
    assert("/"@ =~= seq!['/']);
    law_id_text_has_no_slash(project_id);
    let rest = build_id + seq!['/'] + file_name;
    assert(object_key(project_id, build_id, file_name) =~= project_id.text() + seq!['/'] + rest);
    lemma_split_once_at(project_id.text(), '/', rest);
    lemma_split_once_at(build_id, '/', file_name);
}

/// All that a project stores is under its prefix.
pub proof fn law_keys_under_project_prefix(
    project_id: ProjectId,
    build_id: Seq<char>,
    file_name: Seq<char>,
)
    ensures
        project_prefix(project_id).is_prefix_of(object_key(project_id, build_id, file_name)),
        project_prefix(project_id).is_prefix_of(mapping_key(project_id, build_id, file_name)),
{
}

/// Nothing that another project stores is under the prefix of a project.
pub proof fn law_foreign_keys_outside_project_prefix(
    project_id: ProjectId,
    other: ProjectId,
    build_id: Seq<char>,
    file_name: Seq<char>,
)
    requires
        project_id != other,
    ensures
        !project_prefix(project_id).is_prefix_of(object_key(other, build_id, file_name)),
        !project_prefix(project_id).is_prefix_of(mapping_key(other, build_id, file_name)),
{
    law_id_text_has_no_slash(project_id);
    law_id_text_has_no_slash(other);
    let prefix = project_prefix(project_id);
    assert(prefix.take(36) =~= project_id.text());
    let key = object_key(other, build_id, file_name);
    assert(key.take(36) =~= other.text());
    if prefix.is_prefix_of(key) {
        assert(key.take(36) =~= prefix.take(36));
        law_id_text_injective(project_id, other);
    }
}

/// A project can have each of its stored files deleted.
pub proof fn law_own_keys_accepted(
    project_id: ProjectId,
    build_id: Seq<char>,
    file_name: Seq<char>,
)
    ensures
        checked_key(project_id, object_key(project_id, build_id, file_name)) == Ok::<_, ErrorView>(
            object_key(project_id, build_id, file_name),
        ),
{
    reveal_strlit("/");
    assert("/"@ =~= seq!['/']);
    law_id_text_has_no_slash(project_id);
    let key = object_key(project_id, build_id, file_name);
    let rest = build_id + seq!['/'] + file_name;
    assert(key =~= project_id.text() + seq!['/'] + rest);
    lemma_split_once_at(project_id.text(), '/', rest);
    let n = build_id.len() as int;
    assert(rest.subrange(n, n + 1) =~= seq!['/']);
    assert(occurs_at(rest, seq!['/'], n));
    law_id_text_starts_with_digit(project_id);
    lemma_not_blank(key);
}

/// No project can have a stored file of another deleted.
pub proof fn law_foreign_keys_refused(
    project_id: ProjectId,
    other: ProjectId,
    build_id: Seq<char>,
    file_name: Seq<char>,
)
    requires
        project_id != other,
    ensures
        checked_key(project_id, object_key(other, build_id, file_name)) == Err::<Seq<char>, _>(
            ErrorView::BadRequest("invalid sourcemap key"@),
        ),
{
    law_foreign_keys_outside_project_prefix(project_id, other, build_id, file_name);
    law_id_text_starts_with_digit(other);
    let key = object_key(other, build_id, file_name);
    lemma_not_blank(key);
}

/// Normalized identifiers are trimmed, not empty, and none is there twice.
pub proof fn law_normalized_ids_are_proper(ids: Seq<Seq<char>>)
    ensures
        normalized(ids).no_duplicates(),
        forall|i: int|
            0 <= i < normalized(ids).len() ==> (#[trigger] normalized(ids)[i]).len() > 0 && trim(
                normalized(ids)[i],
            ) == normalized(ids)[i],
    decreases ids.len(),
{
    if ids.len() > 0 {
        law_normalized_ids_are_proper(ids.drop_last());
        lemma_trim_idempotent(ids.last());
    }
}

/// Normalizing keeps each identifier, trimmed, that is not blank, and adds none.
pub proof fn law_normalized_ids_are_the_same(ids: Seq<Seq<char>>, id: Seq<char>)
    ensures
        normalized(ids).contains(id) <==> id.len() > 0 && exists|i: int|
            0 <= i < ids.len() && trim(#[trigger] ids[i]) == id,
    decreases ids.len(),
{
    if ids.len() > 0 {
        let rest = ids.drop_last();
        let before = normalized(rest);
        let last = trim(ids.last());
        law_normalized_ids_are_the_same(rest, id);
        assert(before.push(last).contains(id) <==> before.contains(id) || id == last) by {
            if before.contains(id) {
                let k = choose|k: int| 0 <= k < before.len() && before[k] == id;
                assert(before.push(last)[k] == id);
            }
            assert(before.push(last)[before.len() as int] == last);
        }
        if exists|i: int| 0 <= i < ids.len() && trim(#[trigger] ids[i]) == id {
            let i = choose|i: int| 0 <= i < ids.len() && trim(#[trigger] ids[i]) == id;
            if i < ids.len() - 1 {
                assert(trim(rest[i]) == id);
            }
        }
    }
}

/// Normalizing twice is normalizing once.
pub proof fn law_normalizing_idempotent(ids: Seq<Seq<char>>)
    ensures
        normalized(normalized(ids)) == normalized(ids),
{
    law_normalized_ids_are_proper(ids);
    lemma_proper_ids_stay(normalized(ids));
}

proof fn lemma_proper_ids_stay(ids: Seq<Seq<char>>)
    requires
        ids.no_duplicates(),
        forall|i: int|
            0 <= i < ids.len() ==> (#[trigger] ids[i]).len() > 0 && trim(ids[i]) == ids[i],
    ensures
        normalized(ids) == ids,
    decreases ids.len(),
{
    if ids.len() > 0 {
        let rest = ids.drop_last();
        lemma_proper_ids_stay(rest);
    }
}

/// There is one selection of builds: which objects there are, and which builds
/// are excluded, settles it.
pub proof fn law_selection_unique(
    objects: Seq<MetaView>,
    excluded: Seq<Seq<char>>,
    latest_a: Option<Seq<char>>,
    outdated_a: Seq<Seq<char>>,
    latest_b: Option<Seq<char>>,
    outdated_b: Seq<Seq<char>>,
)
    requires
        is_selection(objects, excluded, latest_a, outdated_a),
        is_selection(objects, excluded, latest_b, outdated_b),
    ensures
        latest_a == latest_b,
        outdated_a == outdated_b,
{
    match (latest_a, latest_b) {
        (Some(a), Some(b)) => {
            assert(!is_newer(objects, a, b));
            assert(!is_newer(objects, b, a));
            lemma_text_less_total(a, b);
        },
        _ => {},
    }
    lemma_ascending_unique(outdated_a, outdated_b);
}

/// Two ascending lists of the same texts are one.
proof fn lemma_ascending_unique(a: Seq<Seq<char>>, b: Seq<Seq<char>>)
    requires
        is_ascending(a),
        is_ascending(b),
        forall|text: Seq<char>| #[trigger] a.contains(text) <==> b.contains(text),
    ensures
        a == b,
    decreases a.len(),
{
    if a.len() == 0 || b.len() == 0 {
        if a.len() > 0 {
            assert(a.contains(a[0]));
        }
        if b.len() > 0 {
            assert(a.contains(b[0]));
        }
    } else {
        let (x, y) = (a.last(), b.last());
        assert(a.contains(x) && b.contains(y));
        assert(b.contains(x) && a.contains(y));
        if x != y {
            lemma_text_less_transitive(x, y, x);
            lemma_text_less_irreflexive(x);
        }
        let (c, d) = (a.drop_last(), b.drop_last());
        assert forall|text: Seq<char>| #[trigger] c.contains(text) <==> d.contains(text) by {
            lemma_text_less_irreflexive(x);
            if c.contains(text) {
                assert(a.contains(text));
                let m = choose|m: int| 0 <= m < b.len() && b[m] == text;
                assert(d[m] == text);
            }
            if d.contains(text) {
                assert(a.contains(text));
                let m = choose|m: int| 0 <= m < a.len() && a[m] == text;
                assert(c[m] == text);
            }
        }
        lemma_ascending_unique(c, d);
        assert(a =~= c.push(x));
    }
}

/// What a cleanup deletes: an object, by its key, goes if and only if it
/// belongs to a build that is neither the newest nor excluded.
pub proof fn law_cleanup_deletes_outdated_alone(
    objects: Seq<MetaView>,
    excluded: Seq<Seq<char>>,
    latest: Option<Seq<char>>,
    outdated: Seq<Seq<char>>,
    key: Seq<char>,
)
    requires
        is_selection(objects, excluded, latest, outdated),
    ensures
        keys_of_builds(objects, outdated).contains(key) <==> {
            &&& keys_of(objects).contains(key)
            &&& key_parts(key) matches Some((build, _)) && latest != Some(build)
                && !excluded.contains(build)
        },
{
    lemma_keys_of_builds(objects, outdated, key);
    if keys_of(objects).contains(key) {
        let i = choose|i: int| 0 <= i < keys_of(objects).len() && keys_of(objects)[i] == key;
        match key_parts(key) {
            Some(_) => {
                lemma_build_has_objects(objects, i);
            },
            None => {},
        }
    }
}

proof fn lemma_build_has_objects(objects: Seq<MetaView>, i: int)
    requires
        0 <= i < objects.len(),
        key_parts(objects[i].key) is Some,
    ensures
        build_modified(objects, (key_parts(objects[i].key)->0).0) is Some,
    decreases objects.len(),
{
    if i < objects.len() - 1 {
        lemma_build_has_objects(objects.drop_last(), i);
    }
}

proof fn lemma_keys_of_builds(objects: Seq<MetaView>, builds: Seq<Seq<char>>, key: Seq<char>)
    ensures
        keys_of_builds(objects, builds).contains(key) <==> {
            &&& keys_of(objects).contains(key)
            &&& key_parts(key) matches Some((build, _)) && builds.contains(build)
        },
    decreases objects.len(),
{
    if objects.len() > 0 {
        let rest = objects.drop_last();
        let last = objects.last().key;
        lemma_keys_of_builds(rest, builds, key);
        let before = keys_of_builds(rest, builds);
        assert(before.push(last).contains(key) <==> before.contains(key) || key == last) by {
            if before.contains(key) {
                let k = choose|k: int| 0 <= k < before.len() && before[k] == key;
                assert(before.push(last)[k] == key);
            }
            assert(before.push(last)[before.len() as int] == last);
        }
        let keys = keys_of(rest);
        assert(keys_of(objects) =~= keys.push(last));
        assert(keys.push(last).contains(key) <==> keys.contains(key) || key == last) by {
            if keys.contains(key) {
                let k = choose|k: int| 0 <= k < keys.len() && keys[k] == key;
                assert(keys.push(last)[k] == key);
            }
            assert(keys.push(last)[keys.len() as int] == last);
        }
    }
}

/// A list has every stored file once.
pub proof fn law_list_has_every_file_once(
    items: Seq<ItemView>,
    listed: Seq<ItemView>,
    order: Seq<usize>,
)
    requires
        is_listed_by(items, listed, order),
    ensures
        listed.to_multiset() == items.to_multiset(),
{
    let indices = order.map_values(|k: usize| k as int);
    assert forall|j: int, k: int|
        0 <= j < indices.len() && 0 <= k < indices.len() && j != k implies indices[j]
        != indices[k] by {
        lemma_text_less_irreflexive(listed[j].build_id);
        lemma_text_less_irreflexive(listed[j].file_name);
    }
    lemma_reordered(items, indices);
    assert(listed =~= indices.map_values(|k: int| items[k]));
}

/// What is uploaded is found where it is looked for: the source map of a
/// script under the key that is fetched for the script, and a mapping file
/// among those that are listed for the build.
pub proof fn law_uploads_are_found(
    plan: PlanView,
    project_id: ProjectId,
    file_name: Seq<char>,
)
    ensures
        plan.mapping_type == MappingType::JavaScript ==> plan.key(project_id, map_file(file_name))
            == object_key(project_id, plan.build_id, map_file(file_name)),
        plan.mapping_type == MappingType::Proguard ==> mapping_prefix(
            project_id,
            plan.build_id,
        ).is_prefix_of(plan.key(project_id, file_name)),
{
}

/// A key made of a project, a build and a file name.
pub open spec fn joined_key(project: Seq<char>, build: Seq<char>, file: Seq<char>) -> Seq<char> {
    project + seq!['/'] + build + seq!['/'] + file
}

/// A key is that of a file of a build, in some project: neither the project nor
/// the build has a slash in it.
pub open spec fn is_file_key(key: Seq<char>, build: Seq<char>, file: Seq<char>) -> bool {
    &&& !build.contains('/')
    &&& exists|project: Seq<char>|
        !project.contains('/') && key == #[trigger] joined_key(project, build, file)
}

/// An object is a file of a build.
pub open spec fn is_of_build(object: MetaView, build: Seq<char>) -> bool {
    exists|file: Seq<char>| is_file_key(object.key, build, file)
}

proof fn lemma_no_slash_before(s: Seq<char>, before: Seq<char>, after: Seq<char>)
    requires
        split_once(s, "/"@) == Some((before, after)),
    ensures
        s == before + seq!['/'] + after,
        !before.contains('/'),
{
    reveal_strlit("/");
    assert("/"@ =~= seq!['/']);
    law_split_is_undone_by_joining(s, "/"@);
    if before.contains('/') {
        let k = choose|k: int| 0 <= k < before.len() && before[k] == '/';
        assert(s.subrange(k, k + 1) =~= seq!['/']);
    }
}

/// The build and the file name that a key is taken apart into make the key
/// again, behind a project; and what is made of them is taken apart into them.
pub proof fn law_key_parts_make_the_key(key: Seq<char>, build: Seq<char>, file: Seq<char>)
    ensures
        key_parts(key) == Some((build, file)) <==> is_file_key(key, build, file),
{
    reveal_strlit("/");
    assert("/"@ =~= seq!['/']);
    if key_parts(key) == Some((build, file)) {
        let (project, rest) = split_once(key, "/"@)->0;
        lemma_no_slash_before(key, project, rest);
        lemma_no_slash_before(rest, build, file);
        assert(key =~= joined_key(project, build, file));
    }
    if is_file_key(key, build, file) {
        let project = choose|project: Seq<char>|
            !project.contains('/') && key == #[trigger] joined_key(project, build, file);
        let rest = build + seq!['/'] + file;
        assert(key =~= project + seq!['/'] + rest);
        lemma_split_once_at(project, '/', rest);
        lemma_split_once_at(build, '/', file);
    }
}

/// The keys under which files are stored are keys of the build and the file; a
/// mapping file is in the directory `proguard` of the build.
pub proof fn law_stored_keys_are_file_keys(
    project_id: ProjectId,
    build: Seq<char>,
    file: Seq<char>,
)
    ensures
        object_key(project_id, build, file) == joined_key(project_id.text(), build, file),
        mapping_key(project_id, build, file) == joined_key(
            project_id.text(),
            build,
            "proguard/"@ + file,
        ),
        mapping_prefix(project_id, build) == joined_key(project_id.text(), build, "proguard"@),
        project_prefix(project_id) == project_id.text() + seq!['/'],
        !build.contains('/') ==> is_file_key(object_key(project_id, build, file), build, file),
        !build.contains('/') ==> is_file_key(
            mapping_key(project_id, build, file),
            build,
            "proguard/"@ + file,
        ),
{
    reveal_strlit("/");
    reveal_strlit("proguard");
    reveal_strlit("proguard/");
    assert("/"@ =~= seq!['/']);
    assert("proguard"@ + "/"@ =~= "proguard/"@);
    law_id_text_has_no_slash(project_id);
    let id = project_id.text();
    assert(object_key(project_id, build, file) =~= joined_key(id, build, file));
    assert(mapping_key(project_id, build, file) =~= joined_key(id, build, "proguard/"@ + file));
    assert(mapping_prefix(project_id, build) =~= joined_key(id, build, "proguard"@));
}

// ---------------------------------------------------------------------------
// Laws of cleaning up
// ---------------------------------------------------------------------------

/// One object was modified later than another. An object of which this is not
/// known counts as modified before all times but the earliest.
pub open spec fn is_later(a: MetaView, b: MetaView) -> bool {
    a.last_modified_epoch_seconds matches Some(x) && x > i64::MIN && (
    b.last_modified_epoch_seconds matches Some(y) ==> x > y)
}

proof fn lemma_build_modified(objects: Seq<MetaView>, build: Seq<char>)
    ensures
        match build_modified(objects, build) {
            Some(time) => {
                &&& exists|i: int|
                    0 <= i < objects.len() && #[trigger] is_of_build(objects[i], build)
                        && modified_at(objects[i]) == time
                &&& forall|i: int|
                    0 <= i < objects.len() && #[trigger] is_of_build(objects[i], build)
                        ==> modified_at(objects[i]) <= time
            },
            None => forall|i: int|
                0 <= i < objects.len() ==> !#[trigger] is_of_build(objects[i], build),
        },
    decreases objects.len(),
{
    if objects.len() > 0 {
        let rest = objects.drop_last();
        let last = objects.last();
        lemma_build_modified(rest, build);
        lemma_of_build(last, build);
        let n = objects.len() - 1;
        assert(objects[n] == last);
        assert forall|i: int| 0 <= i < n implies rest[i] == #[trigger] objects[i] by {
        }
        if build_modified(rest, build) is Some {
            let i = choose|i: int|
                0 <= i < rest.len() && #[trigger] is_of_build(rest[i], build) && modified_at(
                    rest[i],
                ) == build_modified(rest, build)->0;
            assert(is_of_build(objects[i], build));
        }
        assert forall|i: int| 0 <= i < n && #[trigger] is_of_build(objects[i], build) implies
            is_of_build(rest[i], build) by {
        }
    }
}

proof fn lemma_of_build(object: MetaView, build: Seq<char>)
    ensures
        is_of_build(object, build) <==> (key_parts(object.key) matches Some((b, _)) && b == build),
{
    if is_of_build(object, build) {
        let file = choose|file: Seq<char>| is_file_key(object.key, build, file);
        law_key_parts_make_the_key(object.key, build, file);
    }
    if let Some((b, file)) = key_parts(object.key) {
        law_key_parts_make_the_key(object.key, b, file);
    }
}

/// The newest build is that of an object that no object of any build is later
/// than, in whatever order they are listed. Where objects of other builds are
/// as late, its identifier is the last one. Without a build there is none.
pub proof fn law_latest_build_has_the_latest_object(
    objects: Seq<MetaView>,
    excluded: Seq<Seq<char>>,
    latest: Option<Seq<char>>,
    outdated: Seq<Seq<char>>,
)
    requires
        is_selection(objects, excluded, latest, outdated),
    ensures
        match latest {
            Some(build) => exists|i: int|
                0 <= i < objects.len() && #[trigger] is_of_build(objects[i], build) && forall|
                    j: int,
                    other: Seq<char>,
                |
                    0 <= j < objects.len() && #[trigger] is_of_build(objects[j], other)
                        ==> !is_later(objects[j], objects[i]) && (other == build || is_later(
                        objects[i],
                        objects[j],
                    ) || text_less(other, build)),
            None => forall|j: int, other: Seq<char>|
                0 <= j < objects.len() ==> !#[trigger] is_of_build(objects[j], other),
        },
{
    match latest {
        Some(build) => {
            lemma_build_modified(objects, build);
            let time = build_modified(objects, build)->0;
            let i = choose|i: int|
                0 <= i < objects.len() && #[trigger] is_of_build(objects[i], build) && modified_at(
                    objects[i],
                ) == time;
            assert forall|j: int, other: Seq<char>|
                0 <= j < objects.len() && #[trigger] is_of_build(objects[j], other) implies
                !is_later(objects[j], objects[i]) && (other == build || is_later(
                objects[i],
                objects[j],
            ) || text_less(other, build)) by {
                lemma_build_modified(objects, other);
                assert(!is_newer(objects, other, build));
                lemma_text_less_total(other, build);
            }
        },
        None => {
            assert forall|j: int, other: Seq<char>| 0 <= j < objects.len() implies
                !#[trigger] is_of_build(objects[j], other) by {
                lemma_build_modified(objects, other);
                assert(build_modified(objects, other) is None);
            }
        },
    }
}

/// A build goes if and only if it has an object, is not the newest, and is not
/// excluded. Those that go are listed in ascending order, each once.
pub proof fn law_all_builds_but_the_kept_ones_go(
    objects: Seq<MetaView>,
    excluded: Seq<Seq<char>>,
    latest: Option<Seq<char>>,
    outdated: Seq<Seq<char>>,
    build: Seq<char>,
)
    requires
        is_selection(objects, excluded, latest, outdated),
    ensures
        outdated.contains(build) <==> {
            &&& exists|i: int| 0 <= i < objects.len() && #[trigger] is_of_build(objects[i], build)
            &&& latest != Some(build)
            &&& !excluded.contains(build)
        },
        forall|i: int, j: int|
            0 <= i < j < outdated.len() ==> text_less(
                #[trigger] outdated[i],
                #[trigger] outdated[j],
            ),
{
    lemma_build_modified(objects, build);
}

/// The objects that a cleanup deletes are those of the builds that go, each of
/// them, in the order in which they are listed.
pub proof fn law_cleanup_deletes_all_objects_of_builds(
    objects: Seq<MetaView>,
    builds: Seq<Seq<char>>,
)
    ensures
        keys_of_builds(objects, builds) == keys_of(
            objects.filter(
                |object: MetaView|
                    exists|build: Seq<char>| builds.contains(build) && is_of_build(object, build),
            ),
        ),
        forall|i: int| 0 <= i < objects.len() ==> keys_of(objects)[i] == objects[i].key,
        keys_of(objects).len() == objects.len(),
    decreases objects.len(),
{
    let goes = |object: MetaView|
        exists|build: Seq<char>| builds.contains(build) && is_of_build(object, build);
    reveal(Seq::filter);
    if objects.len() > 0 {
        let rest = objects.drop_last();
        let last = objects.last();
        law_cleanup_deletes_all_objects_of_builds(rest, builds);
        if goes(last) {
            let build = choose|build: Seq<char>|
                builds.contains(build) && is_of_build(last, build);
            lemma_of_build(last, build);
        }
        if let Some((b, _)) = key_parts(last.key) {
            lemma_of_build(last, b);
        }
        let kept = rest.filter(goes);
        assert(keys_of(kept.push(last)) =~= keys_of(kept).push(last.key));
    } else {
        assert(keys_of(objects.filter(goes)) =~= keys_of_builds(objects, builds));
    }
}

/// Normalizing goes from front to back: what comes later changes nothing of
/// what came of the earlier identifiers, and their order stays.
pub proof fn law_normalized_ids_keep_their_order(ids: Seq<Seq<char>>, more: Seq<Seq<char>>)
    ensures
        normalized(ids).is_prefix_of(normalized(ids + more)),
    decreases more.len(),
{
    if more.len() > 0 {
        law_normalized_ids_keep_their_order(ids, more.drop_last());
        assert((ids + more).drop_last() =~= ids + more.drop_last());
    } else {
        assert(ids + more =~= ids);
    }
}

// ---------------------------------------------------------------------------
// Laws of listing
// ---------------------------------------------------------------------------

/// The items of a list are the stored files among objects, each once, where
/// `sources` has the place of the object of each.
pub open spec fn are_listed_from(
    objects: Seq<MetaView>,
    listed: Seq<ItemView>,
    sources: Seq<int>,
) -> bool {
    &&& sources.len() == listed.len()
    &&& sources.no_duplicates()
    &&& forall|k: int|
        0 <= k < listed.len() ==> 0 <= sources[k] < objects.len() && is_listed_file(
            objects[sources[k]],
            #[trigger] listed[k],
        )
    &&& forall|i: int, build: Seq<char>, file: Seq<char>|
        0 <= i < objects.len() && #[trigger] is_file_key(objects[i].key, build, file)
            ==> sources.contains(i)
    &&& forall|j: int, k: int|
        0 <= j < k < listed.len() ==> are_in_order(
            #[trigger] listed[j],
            sources[j],
            #[trigger] listed[k],
            sources[k],
        )
}

/// The places of the objects that are stored files.
spec fn file_places(objects: Seq<MetaView>) -> Seq<int>
    decreases objects.len(),
{
    if objects.len() == 0 {
        seq![]
    } else {
        let before = file_places(objects.drop_last());
        if key_parts(objects.last().key) is Some {
            before.push(objects.len() - 1)
        } else {
            before
        }
    }
}

proof fn lemma_file_places(objects: Seq<MetaView>)
    ensures
        file_places(objects).len() == stored_files(objects).len(),
        forall|k: int|
            0 <= k < file_places(objects).len() ==> 0 <= #[trigger] file_places(objects)[k]
                < objects.len() && is_listed_file(
                objects[file_places(objects)[k]],
                stored_files(objects)[k],
            ),
        forall|j: int, k: int|
            0 <= j < k < file_places(objects).len() ==> #[trigger] file_places(objects)[j]
                < #[trigger] file_places(objects)[k],
        forall|i: int, build: Seq<char>, file: Seq<char>|
            0 <= i < objects.len() && #[trigger] is_file_key(objects[i].key, build, file)
                ==> file_places(objects).contains(i),
    decreases objects.len(),
{
    if objects.len() > 0 {
        let rest = objects.drop_last();
        let last = objects.last();
        lemma_file_places(rest);
        let (places, before) = (file_places(objects), file_places(rest));
        if let Some((build, file)) = key_parts(last.key) {
            law_key_parts_make_the_key(last.key, build, file);
            assert(places[before.len() as int] == objects.len() - 1);
        }
        assert forall|k: int| 0 <= k < before.len() implies places[k] == before[k]
            && objects[before[k]] == rest[#[trigger] before[k]] by {
        }
        assert forall|i: int, build: Seq<char>, file: Seq<char>|
            0 <= i < objects.len() && #[trigger] is_file_key(objects[i].key, build, file) implies
            places.contains(i) by {
            law_key_parts_make_the_key(objects[i].key, build, file);
            if i < objects.len() - 1 {
                assert(is_file_key(rest[i].key, build, file));
                let k = choose|k: int| 0 <= k < before.len() && before[k] == i;
                assert(places[k] == i);
            }
        }
    }
}

/// A list has an item for each stored object whose key is that of a file, with
/// the build and the file name that make the key again, and the size of the
/// object, or zero where it is not known; and it has no other items.
pub proof fn law_list_names_each_stored_file(
    objects: Seq<MetaView>,
    listed: Seq<ItemView>,
    order: Seq<usize>,
)
    requires
        is_listed_by(stored_files(objects), listed, order),
    ensures
        exists|sources: Seq<int>| are_listed_from(objects, listed, sources),
{
    lemma_file_places(objects);
    let items = stored_files(objects);
    let places = file_places(objects);
    let sources = Seq::new(order.len(), |k: int| places[order[k] as int]);
    let indices = order.map_values(|k: usize| k as int);
    assert forall|j: int, k: int| 0 <= j < k < order.len() implies order[j] != order[k] by {
        let (a, b) = (listed[j], listed[k]);
        lemma_text_less_irreflexive(a.build_id);
        lemma_text_less_irreflexive(a.file_name);
    }
    assert forall|j: int, k: int| 0 <= j < sources.len() && 0 <= k < sources.len() && j != k implies
        sources[j] != sources[k] by {
        let (a, b) = (order[j] as int, order[k] as int);
        if j < k {
            assert(order[j] != order[k]);
        } else {
            assert(order[k] != order[j]);
        }
        if a < b {
            assert(places[a] < places[b]);
        } else {
            assert(places[b] < places[a]);
        }
    }
    assert forall|i: int, build: Seq<char>, file: Seq<char>|
        0 <= i < objects.len() && #[trigger] is_file_key(objects[i].key, build, file) implies
        sources.contains(i) by {
        let p = choose|p: int| 0 <= p < places.len() && places[p] == i;
        lemma_index_is_reached(indices, p);
        let k = choose|k: int| 0 <= k < indices.len() && indices[k] == p;
        assert(sources[k] == i);
    }
    assert forall|j: int, k: int| 0 <= j < k < listed.len() implies are_in_order(
        #[trigger] listed[j],
        sources[j],
        #[trigger] listed[k],
        sources[k],
    ) by {
        let (a, b) = (listed[j], listed[k]);
        lemma_text_less_total(a.build_id, b.build_id);
        lemma_text_less_total(a.file_name, b.file_name);
        if order[j] < order[k] {
            assert(places[order[j] as int] < places[order[k] as int]);
        }
    }
    assert forall|k: int| 0 <= k < listed.len() implies 0 <= sources[k] < objects.len()
        && is_listed_file(objects[sources[k]], #[trigger] listed[k]) by {
        assert(order[k] < items.len());
        assert(places[order[k] as int] == sources[k]);
    }
    assert(are_listed_from(objects, listed, sources));
}

proof fn lemma_views_are_listed(
    objects: Seq<StoredObjectMeta>,
    items: Seq<SourcemapListItem>,
    sources: Seq<int>,
)
    requires
        are_listed_from(metas_view(objects), items_view(items), sources),
    ensures
        are_files_of(objects, items, sources),
{
    let (metas, listed) = (metas_view(objects), items_view(items));
    assert forall|k: int|
        #![trigger sources[k]]
        #![trigger items[k]]
        0 <= k < items.len() implies 0 <= sources[k] < objects.len() && is_listed_file(
        objects[sources[k]]@,
        items[k]@,
    ) by {
        assert(listed[k] == items[k]@);
    }
    assert forall|i: int, build: Seq<char>, file: Seq<char>|
        0 <= i < objects.len() && #[trigger] is_file_key(
            objects[i].key@,
            build,
            file,
        ) implies sources.contains(i) by {
        assert(is_file_key(metas[i].key, build, file));
    }
    assert forall|j: int, k: int| 0 <= j < k < items.len() implies are_in_order(
        (#[trigger] items[j])@,
        sources[j],
        (#[trigger] items[k])@,
        sources[k],
    ) by {
        assert(listed[j] == items[j]@ && listed[k] == items[k]@);
    }
}

/// A list has an item with exactly the build, the file name and the size of an
/// object that is stored under the key of a file; and the key of each object
/// that an item comes from is made of some project, its build and its file name.
pub proof fn law_stored_file_is_listed(
    objects: Seq<MetaView>,
    listed: Seq<ItemView>,
    order: Seq<usize>,
    project_id: ProjectId,
    build: Seq<char>,
    file: Seq<char>,
    i: int,
)
    requires
        is_listed_by(stored_files(objects), listed, order),
        0 <= i < objects.len(),
        objects[i].key == object_key(project_id, build, file),
        !build.contains('/'),
    ensures
        exists|k: int|
            0 <= k < listed.len() && (#[trigger] listed[k]).build_id == build && listed[k].file_name
                == file && match objects[i].size_bytes {
                Some(size) => listed[k].size == size,
                None => listed[k].size == 0,
            },
{
    law_list_names_each_stored_file(objects, listed, order);
    let sources = choose|sources: Seq<int>| are_listed_from(objects, listed, sources);
    law_stored_keys_are_file_keys(project_id, build, file);
    let k = choose|k: int| 0 <= k < sources.len() && sources[k] == i;
    let item = listed[k];
    law_key_parts_make_the_key(objects[i].key, build, file);
    law_key_parts_make_the_key(objects[i].key, item.build_id, item.file_name);
}

// ---------------------------------------------------------------------------
// Laws of checking uploads
// ---------------------------------------------------------------------------

/// What is asked for is there unless it is blank, and an error names it else.
pub proof fn law_required_field(field: Seq<char>, value: Seq<char>)
    ensures
        non_empty(field, value) is Ok <==> !is_blank(value),
        is_blank(value) ==> non_empty(field, value) == Err::<(), _>(
            ErrorView::BadRequest(field + " is required"@),
        ),
{
}

/// Files pass if and only if all names and contents are there. Of those that do
/// not, the first is refused: for its name, or else for its content.
pub proof fn law_first_incomplete_file_is_refused(files: Seq<FileView>, content: Seq<char>, i: int)
    requires
        0 <= i <= files.len(),
        forall|j: int| 0 <= j < i ==> !is_blank((#[trigger] files[j]).0) && !is_blank(files[j].1),
        i < files.len() ==> is_blank(files[i].0) || is_blank(files[i].1),
    ensures
        i == files.len() ==> files_check(files, content) is Ok,
        i < files.len() && is_blank(files[i].0) ==> files_check(files, content) == Err::<(), _>(
            ErrorView::BadRequest("file_name is required"@),
        ),
        i < files.len() && !is_blank(files[i].0) ==> files_check(files, content) == Err::<(), _>(
            ErrorView::BadRequest(content + " is required"@),
        ),
    decreases i,
{
    reveal_strlit("file_name");
    reveal_strlit(" is required");
    reveal_strlit("file_name is required");
    assert("file_name"@ + " is required"@ =~= "file_name is required"@);
    if i > 0 {
        let rest = files.drop_first();
        assert(files[0] == files.first());
        assert forall|j: int| 0 <= j < i - 1 implies !is_blank((#[trigger] rest[j]).0) && !is_blank(
            rest[j].1,
        ) by {
            assert(rest[j] == files[j + 1]);
        }
        law_first_incomplete_file_is_refused(rest, content, i - 1);
    }
}

proof fn lemma_wordings()
    ensures
        "build_id"@ + " is required"@ == "build_id is required"@,
        "uploaded_at"@ + " is required"@ == "uploaded_at is required"@,
        "mapping"@ + " is required"@ == "mapping is required"@,
        "sourcemap"@ + " is required"@ == "sourcemap is required"@,
{
    reveal_strlit(" is required");
    reveal_strlit("build_id");
    reveal_strlit("build_id is required");
    reveal_strlit("uploaded_at");
    reveal_strlit("uploaded_at is required");
    reveal_strlit("mapping");
    reveal_strlit("mapping is required");
    reveal_strlit("sourcemap");
    reveal_strlit("sourcemap is required");
    assert("build_id"@ + " is required"@ =~= "build_id is required"@);
    assert("uploaded_at"@ + " is required"@ =~= "uploaded_at is required"@);
    assert("mapping"@ + " is required"@ =~= "mapping is required"@);
    assert("sourcemap"@ + " is required"@ =~= "sourcemap is required"@);
}

/// The first file that is not complete, or the number of files if all are.
proof fn lemma_first_incomplete(files: Seq<FileView>) -> (i: int)
    ensures
        0 <= i <= files.len(),
        forall|j: int| 0 <= j < i ==> !is_blank((#[trigger] files[j]).0) && !is_blank(files[j].1),
        i < files.len() ==> is_blank(files[i].0) || is_blank(files[i].1),
    decreases files.len(),
{
    if files.len() == 0 {
        0
    } else {
        let rest = files.drop_last();
        let i = lemma_first_incomplete(rest);
        assert forall|j: int| 0 <= j < i implies !is_blank((#[trigger] files[j]).0) && !is_blank(
            files[j].1,
        ) by {
            assert(rest[j] == files[j]);
        }
        if i < rest.len() {
            i
        } else if is_blank(files.last().0) || is_blank(files.last().1) {
            i
        } else {
            i + 1
        }
    }
}

/// An upload of source maps passes if and only if it has a build, a time and at
/// least one file, and every file has a name and content. What is missing is
/// told in that order.
pub proof fn law_sourcemap_upload_is_checked(
    build_id: Seq<char>,
    uploaded_at: Seq<char>,
    files: Seq<FileView>,
)
    ensures
        js_ingest_check(build_id, uploaded_at, files) is Ok <==> !is_blank(build_id) && !is_blank(
            uploaded_at,
        ) && files.len() > 0 && forall|i: int|
            0 <= i < files.len() ==> !is_blank((#[trigger] files[i]).0) && !is_blank(files[i].1),
        is_blank(build_id) ==> js_ingest_check(build_id, uploaded_at, files) == Err::<(), _>(
            ErrorView::BadRequest("build_id is required"@),
        ),
        !is_blank(build_id) && is_blank(uploaded_at) ==> js_ingest_check(
            build_id,
            uploaded_at,
            files,
        ) == Err::<(), _>(ErrorView::BadRequest("uploaded_at is required"@)),
        !is_blank(build_id) && !is_blank(uploaded_at) && files.len() == 0 ==> js_ingest_check(
            build_id,
            uploaded_at,
            files,
        ) == Err::<(), _>(ErrorView::BadRequest("no sourcemaps provided"@)),
        !is_blank(build_id) && !is_blank(uploaded_at) && files.len() > 0 ==> js_ingest_check(
            build_id,
            uploaded_at,
            files,
        ) == files_check(files, "sourcemap"@),
{
    lemma_wordings();
    let i = lemma_first_incomplete(files);
    law_first_incomplete_file_is_refused(files, "sourcemap"@, i);
}

/// An upload of ProGuard mappings passes if and only if it has a build, a time
/// and at least one file, every file has a name and content, and a single
/// mapping has a file name of its own where there are others. What is missing is
/// told in the order of the checks.
pub proof fn law_mapping_upload_is_checked(
    build_id: Seq<char>,
    uploaded_at: Seq<char>,
    file_name: Option<Seq<char>>,
    mapping: Option<Seq<char>>,
    listed: Seq<FileView>,
)
    ensures
        ({
            let upload = proguard_upload(build_id, uploaded_at, file_name, mapping, listed);
            let complete = |file: FileView| !is_blank(file.0) && !is_blank(file.1);
            let named = !is_blank(build_id) && !is_blank(uploaded_at);
            &&& is_blank(build_id) ==> upload == Err::<Seq<FileView>, _>(
                ErrorView::BadRequest("build_id is required"@),
            )
            &&& !is_blank(build_id) && is_blank(uploaded_at) ==> upload == Err::<Seq<FileView>, _>(
                ErrorView::BadRequest("uploaded_at is required"@),
            )
            &&& named && file_name is Some && mapping is None ==> upload == Err::<
                Seq<FileView>,
                _,
            >(ErrorView::BadRequest("mapping is required"@))
            &&& named && file_name is None && mapping is Some && listed.len() > 0 ==> upload
                == Err::<Seq<FileView>, _>(ErrorView::BadRequest("file_name is required"@))
            &&& named && file_name is None && mapping is None && listed.len() == 0 ==> upload
                == Err::<Seq<FileView>, _>(ErrorView::BadRequest("no proguard mappings provided"@))
            &&& upload is Ok <==> {
                &&& named
                &&& listed.len() > 0 || mapping is Some
                &&& file_name is Some ==> mapping is Some
                &&& file_name is None && mapping is Some ==> listed.len() == 0
                &&& forall|i: int| 0 <= i < listed.len() ==> complete(#[trigger] listed[i])
                &&& file_name matches Some(name) ==> !is_blank(name)
                &&& mapping matches Some(content) ==> !is_blank(content)
            }
            &&& upload matches Ok(files) ==> match mapping {
                Some(content) => files == listed.push(
                    (
                        match file_name {
                            Some(name) => name,
                            None => "mapping.txt"@,
                        },
                        content,
                    ),
                ),
                None => files == listed,
            }
        }),
{
    lemma_wordings();
    reveal_strlit("mapping.txt");
    let upload = proguard_upload(build_id, uploaded_at, file_name, mapping, listed);
    lemma_not_blank("mapping.txt"@);
    let complete = |file: FileView| !is_blank(file.0) && !is_blank(file.1);
    match gathered_files(file_name, mapping, listed) {
        Ok(files) => {
            let i = lemma_first_incomplete(files);
            law_first_incomplete_file_is_refused(files, "mapping"@, i);
            if mapping is Some {
                assert(files =~= listed.push(files.last()));
                assert(files[listed.len() as int] == files.last());
            } else {
                assert(files =~= listed);
            }
            assert forall|k: int| 0 <= k < listed.len() implies files[k]
                == #[trigger] listed[k] by {
            }
            if i < files.len() {
                if i < listed.len() {
                    assert(!complete(listed[i]));
                }
            } else {
                assert forall|k: int| 0 <= k < listed.len() implies complete(
                    #[trigger] listed[k],
                ) by {
                    assert(files[k] == listed[k]);
                }
            }
        },
        Err(_) => {},
    }
}

/// A list of files by what it holds: each name with its own content.
pub proof fn law_files_by_what_they_hold(files: Seq<(String, String)>)
    ensures
        files_view(files).len() == files.len(),
        forall|i: int|
            0 <= i < files.len() ==> #[trigger] files_view(files)[i] == (files[i].0@, files[i].1@),
{
}

// ---------------------------------------------------------------------------
// Laws of single files
// ---------------------------------------------------------------------------

/// A key is accepted for a project exactly where it is made of that project, a build
/// and a file name. A blank one is missing; any other is invalid.
pub proof fn law_key_is_accepted_for_its_project(project_id: ProjectId, key: Seq<char>)
    ensures
        match checked_key(project_id, key) {
            Ok(accepted) => accepted == key && exists|build: Seq<char>, file: Seq<char>|
                key == #[trigger] joined_key(project_id.text(), build, file),
            Err(error) => {
                &&& forall|build: Seq<char>, file: Seq<char>|
                    key != #[trigger] joined_key(project_id.text(), build, file)
                &&& error == if is_blank(key) {
                    ErrorView::BadRequest("s3_key is required"@)
                } else {
                    ErrorView::BadRequest("invalid sourcemap key"@)
                }
            },
        },
{
    reveal_strlit("/");
    reveal_strlit("s3_key");
    reveal_strlit(" is required");
    reveal_strlit("s3_key is required");
    assert("s3_key"@ + " is required"@ =~= "s3_key is required"@);
    assert("/"@ =~= seq!['/']);
    let id = project_id.text();
    law_id_text_has_no_slash(project_id);
    match checked_key(project_id, key) {
        Ok(_) => {
            let (project, rest) = split_once(key, "/"@)->0;
            let (build, file) = split_once(rest, "/"@)->0;
            lemma_no_slash_before(key, project, rest);
            lemma_no_slash_before(rest, build, file);
            let prefix = project_prefix(project_id);
            assert(key.subrange(0, prefix.len() as int) == prefix);
            let behind = key.skip(prefix.len() as int);
            assert(key =~= id + seq!['/'] + behind);
            lemma_split_once_at(id, '/', behind);
            assert(key =~= joined_key(id, build, file));
        },
        Err(_) => {
            assert forall|build: Seq<char>, file: Seq<char>|
                key != #[trigger] joined_key(id, build, file) by {
                if key == joined_key(id, build, file) {
                    law_own_keys_accepted(project_id, build, file);
                    law_stored_keys_are_file_keys(project_id, build, file);
                }
            }
        },
    }
}

/// A plan of an upload by what it holds.
pub proof fn law_plan_by_what_it_holds(plan: IngestPlan)
    ensures
        plan@.mapping_type == plan.mapping_type,
        plan@.build_id == plan.build_id@,
        plan@.uploaded_at == plan.uploaded_at@,
        plan@.files.len() == plan.files@.len(),
        forall|i: int|
            0 <= i < plan.files@.len() ==> #[trigger] plan@.files[i] == (
                plan.files@[i].0@,
                plan.files@[i].1@,
            ),
        INGEST_MAX_BODY_BYTES == 50 * 1024 * 1024,
{
}

/// A file of an upload is stored under a key made of the project, the build and its
/// name; a mapping file is in the directory `proguard` of the build.
pub proof fn law_upload_is_stored_by_its_name(
    plan: PlanView,
    project_id: ProjectId,
    file_name: Seq<char>,
)
    ensures
        plan.mapping_type == MappingType::JavaScript ==> plan.key(project_id, file_name)
            == joined_key(project_id.text(), plan.build_id, file_name),
        plan.mapping_type == MappingType::Proguard ==> plan.key(project_id, file_name)
            == joined_key(project_id.text(), plan.build_id, "proguard/"@ + file_name),
{
    law_stored_keys_are_file_keys(project_id, plan.build_id, file_name);
}

/// What comes next of an upload: as long as files are left, the next of them is stored
/// under its key, with its content; then the build of the project is recorded, with
/// the time of the upload. A file is refused only where, compressed, it is too long to
/// be encrypted.
pub proof fn law_step_of_an_upload(
    storage: Storage,
    project_id: ProjectId,
    plan: PlanView,
    done: nat,
    next: Result<IngestNext, AppError>,
)
    requires
        ingest_next(storage, project_id, plan, done, next),
    ensures
        match next {
            Ok(IngestNext::Put(object, pending)) => {
                &&& done < plan.files.len()
                &&& object.bucket@ == storage.bucket()
                &&& object.key@ == joined_key(
                    project_id.text(),
                    plan.build_id,
                    if plan.mapping_type == MappingType::JavaScript {
                        plan.files[done as int].0
                    } else {
                        "proguard/"@ + plan.files[done as int].0
                    },
                )
                &&& stored_content(storage.key(), object.body@) == Ok::<_, ErrorView>(
                    encode_utf8(plan.files[done as int].1),
                )
                &&& pending@.plan == plan
                &&& pending@.project_id == project_id
                &&& pending@.done == done
            },
            Ok(IngestNext::Record(record, pending)) => {
                &&& done >= plan.files.len()
                &&& record.project_id == project_id
                &&& record.build_id@ == plan.build_id
                &&& record.uploaded_at@ == plan.uploaded_at
                &&& pending@ == plan
            },
            Err(error) => {
                &&& done < plan.files.len()
                &&& error@ == ErrorView::Crypto(CryptoError::Aes)
                &&& zstd_frame(encode_utf8(plan.files[done as int].1), 3).len() > MAX_PLAINTEXT_LEN
            },
        },
{
    if done < plan.files.len() {
        law_stored_keys_are_file_keys(project_id, plan.build_id, plan.files[done as int].0);
    }
}

/// A mapping file that cannot be had ends the tracing, with the reason.
pub proof fn law_failed_fetch_ends_the_tracing(
    fetch: MappingFetchView,
    key: Seq<u8>,
    reply: GetReply,
)
    ensures
        fetched(key, reply) matches Err(error) ==> fetch.step(key, reply) == MappingStep::Done(
            Err::<Seq<char>, _>(error),
        ),
{
}

} // verus!

//! What is kept in the bucket, and how: every object is compressed, then
//! encrypted. The conversations with the bucket are given as their steps: what
//! to ask next, and what to make of the reply.

use std::io::{Read, Write};

use vstd::prelude::*;

use crate::crypto::{
    decrypted, encrypted, random_nonce, seals_with_tag, Crypto, CryptoError, MAX_PLAINTEXT_LEN,
    NONCE_LEN,
};
use crate::error::{bytes_result, joined, AppError, ErrorView};
use crate::text::{
    contains_text, lemma_occurs_between, occurs, same_text, text_view, texts_view,
};

verus! {

/// How hard objects are compressed.
pub const ZSTD_LEVEL: i32 = 3;

/// The most keys that go into one request to delete.
pub const DELETE_BATCH: usize = 1000;

// ---------------------------------------------------------------------------
// Compression
// ---------------------------------------------------------------------------

/// The frame that zstd compresses data to at a level.
pub uninterp spec fn zstd_frame(data: Seq<u8>, level: int) -> Seq<u8>;

/// What zstd decompresses data to, or the wording of the failure.
pub uninterp spec fn zstd_decoded(data: Seq<u8>) -> Result<Seq<u8>, Seq<char>>;

/// Compresses with `zstd::Encoder::new`, `write_all` and `finish`, into a
/// `Vec`. What comes out is a frame that decompresses to the data again. That
/// memory for it can be had is taken for granted; at these levels nothing else
/// can fail.
#[verifier::external_body]
fn encode_zstd(data: &[u8], level: i32) -> (encoded: Result<Vec<u8>, String>)
    requires
        1 <= level <= 22,
    ensures
        encoded is Ok,
        encoded matches Ok(frame) ==> frame@ == zstd_frame(data@, level as int),
        encoded matches Ok(frame) ==> (zstd_decoded(frame@) matches Ok(d) && d == data@),
{
    let mut encoder = zstd::Encoder::new(Vec::new(), level).map_err(|e| e.to_string())?;
    encoder.write_all(data).map_err(|e| e.to_string())?;
    encoder.finish().map_err(|e| e.to_string())
}

/// Decompresses with `zstd::Decoder::new` and `read_to_end`. Which bytes come
/// out, or which error, depends on the data alone; that memory for the result
/// can be had is taken for granted.
#[verifier::external_body]
fn decode_zstd(data: &[u8]) -> (decoded: Result<Vec<u8>, String>)
    ensures
        decoded matches Ok(bytes) ==> (zstd_decoded(data@) matches Ok(d) && d == bytes@),
        decoded matches Err(text) ==> (zstd_decoded(data@) matches Err(e) && e == text@),
{
    let mut decoder = zstd::Decoder::new(data).map_err(|e| e.to_string())?;
    let mut bytes = Vec::new();
    decoder.read_to_end(&mut bytes).map_err(|e| e.to_string())?;
    Ok(bytes)
}

/// Compresses data. It decompresses to the same data again.
pub fn zstd_compress(data: &[u8]) -> (compressed: Result<Vec<u8>, AppError>)
    ensures
        compressed is Ok,
        compressed matches Ok(frame) ==> frame@ == zstd_frame(data@, 3),
        compressed matches Ok(frame) ==> frame@ == zstd_frame(data@, ZSTD_LEVEL as int),
        compressed matches Ok(frame) ==> decompressed(frame@) == Ok::<_, ErrorView>(data@),
{
    match encode_zstd(data, ZSTD_LEVEL) {
        Ok(frame) => Ok(frame),
        Err(text) => Err(AppError::Compression(text)),
    }
}

/// What data decompresses to.
pub open spec fn decompressed(data: Seq<u8>) -> Result<Seq<u8>, ErrorView> {
    match zstd_decoded(data) {
        Ok(bytes) => Ok(bytes),
        Err(text) => Err(ErrorView::Compression(text)),
    }
}

pub fn zstd_decompress(data: &[u8]) -> (bytes: Result<Vec<u8>, AppError>)
    ensures
        bytes_result(bytes) == decompressed(data@),
{
    match decode_zstd(data) {
        Ok(bytes) => Ok(bytes),
        Err(text) => Err(AppError::Compression(text)),
    }
}

// ---------------------------------------------------------------------------
// Failures of the bucket
// ---------------------------------------------------------------------------

/// A failed request: how the error reads for users and for developers.
#[derive(Debug)]
pub struct S3Failure {
    pub display: String,
    pub debug: String,
}

/// The two wordings of a failure in one text.
pub open spec fn detailed(display: Seq<char>, debug: Seq<char>) -> Seq<char> {
    display + "; details: "@ + debug
}

fn detailed_text(failure: &S3Failure) -> (text: String)
    ensures
        text@ == detailed(failure.display@, failure.debug@),
{
    let text = joined(failure.display.as_str(), "; details: ");
    joined(text.as_str(), failure.debug.as_str())
}

impl S3Failure {
    /// The error that a failed request is reported as.
    pub open spec fn error(self) -> ErrorView {
        if self.display@ == self.debug@ {
            ErrorView::S3(self.display@)
        } else {
            ErrorView::S3(detailed(self.display@, self.debug@))
        }
    }

    /// The failure says that there is no such object.
    pub open spec fn is_missing(self) -> bool {
        ||| occurs(self.display@, "NoSuchKey"@)
        ||| occurs(self.display@, "not found"@)
        ||| occurs(self.debug@, "NoSuchKey"@)
        ||| occurs(self.debug@, "NotFound"@)
    }

    /// The error that a failed request for an object is reported as.
    pub open spec fn get_error(self) -> ErrorView {
        if self.is_missing() {
            ErrorView::NotFound
        } else {
            ErrorView::S3(detailed(self.display@, self.debug@))
        }
    }
}

pub fn s3_error(failure: S3Failure) -> (error: AppError)
    ensures
        error@ == failure.error(),
{
    if same_text(failure.display.as_str(), failure.debug.as_str()) {
        AppError::S3(failure.display)
    } else {
        AppError::S3(detailed_text(&failure))
    }
}

pub fn s3_get_error(failure: S3Failure) -> (error: AppError)
    ensures
        error@ == failure.get_error(),
{
    if contains_text(failure.display.as_str(), "NoSuchKey") || contains_text(
        failure.display.as_str(),
        "not found",
    ) || contains_text(failure.debug.as_str(), "NoSuchKey") || contains_text(
        failure.debug.as_str(),
        "NotFound",
    ) {
        AppError::NotFound
    } else {
        AppError::S3(detailed_text(&failure))
    }
}

// ---------------------------------------------------------------------------
// Single objects
// ---------------------------------------------------------------------------

/// The bucket and the key to its objects.
pub struct Storage {
    bucket: String,
    crypto: Crypto,
}

impl Clone for Storage {
    fn clone(&self) -> (copy: Self)
        ensures
            copy.bucket() == self.bucket(),
            copy.key() == self.key(),
    {
        Storage { bucket: self.bucket.clone(), crypto: self.crypto.clone() }
    }
}

/// An object to be stored.
pub struct PutObject {
    pub bucket: String,
    pub key: String,
    pub body: Vec<u8>,
}

/// An object to be fetched.
pub struct GetObject {
    pub bucket: String,
    pub key: String,
}

/// What came of fetching an object.
pub enum GetReply {
    /// The request failed.
    Refused(S3Failure),
    /// The object was found, but reading its body failed.
    Broken(S3Failure),
    Body(Vec<u8>),
}

/// What a stored body stands for under a key.
pub open spec fn stored_content(key: Seq<u8>, body: Seq<u8>) -> Result<Seq<u8>, ErrorView> {
    match decrypted(key, body) {
        Ok(compressed) => decompressed(compressed),
        Err(error) => Err(ErrorView::Crypto(error)),
    }
}

/// What a reply to a request for an object comes down to.
pub open spec fn fetched(key: Seq<u8>, reply: GetReply) -> Result<Seq<u8>, ErrorView> {
    match reply {
        GetReply::Refused(failure) => Err(failure.get_error()),
        GetReply::Broken(failure) => Err(failure.error()),
        GetReply::Body(body) => stored_content(key, body@),
    }
}

impl Storage {
    pub closed spec fn bucket(&self) -> Seq<char> {
        self.bucket@
    }

    /// The bytes of the key under which objects are encrypted.
    pub closed spec fn key(&self) -> Seq<u8> {
        self.crypto@
    }

    /// What comes of preparing an object for storing. Its body stands for the
    /// content. There is no object where the compressed content is too long for
    /// the cipher, and only there.
    pub open spec fn is_put(
        &self,
        key: Seq<char>,
        content: Seq<u8>,
        object: Result<PutObject, AppError>,
    ) -> bool {
        match object {
            Ok(object) => {
                let frame = zstd_frame(content, ZSTD_LEVEL as int);
                &&& object.bucket@ == self.bucket()
                &&& object.key@ == key
                &&& stored_content(self.key(), object.body@) == Ok::<_, ErrorView>(content)
                &&& frame.len() <= MAX_PLAINTEXT_LEN
                &&& exists|nonce: Seq<u8>|
                    nonce.len() == NONCE_LEN && Ok::<_, CryptoError>(object.body@)
                        == #[trigger] encrypted(self.key(), nonce, frame) && seals_with_tag(
                        self.key(),
                        nonce,
                        frame,
                    )
            },
            Err(error) => error@ == ErrorView::Crypto(CryptoError::Aes) && zstd_frame(
                content,
                ZSTD_LEVEL as int,
            ).len() > MAX_PLAINTEXT_LEN,
        }
    }

    pub fn new(bucket: String, crypto: Crypto) -> (storage: Storage)
        ensures
            storage.bucket() == bucket@,
            storage.key() == crypto@,
    {
        Storage { bucket, crypto }
    }

    /// The object to store for compressed data, encrypted under a nonce.
    pub fn object_to_put(
        &self,
        key: &str,
        compressed: Result<Vec<u8>, AppError>,
        nonce: &[u8; 12],
    ) -> (object: Result<PutObject, AppError>)
        ensures
            match compressed {
                Err(error) => object matches Err(e) && e@ == error@,
                Ok(compressed) => match encrypted(self.key(), nonce@, compressed@) {
                    Err(error) => object matches Err(e) && e@ == ErrorView::Crypto(error),
                    Ok(body) => object matches Ok(object) && object.bucket@ == self.bucket()
                        && object.key@ == key@ && object.body@ == body && stored_content(
                        self.key(),
                        body,
                    ) == decompressed(compressed@),
                },
            },
            compressed matches Ok(compressed) ==> (object is Ok <==> compressed@.len()
                <= MAX_PLAINTEXT_LEN),
            compressed matches Ok(compressed) ==> seals_with_tag(
                self.key(),
                nonce@,
                compressed@,
            ),
    {
        let compressed = match compressed {
            Ok(compressed) => compressed,
            Err(error) => {
                return Err(error);
            },
        };
        match self.crypto.encrypt_with_nonce(nonce, compressed.as_slice()) {
            Ok(body) => Ok(PutObject { bucket: self.bucket.clone(), key: key.to_owned(), body }),
            Err(error) => Err(AppError::Crypto(error)),
        }
    }

    /// The object to store for a text or other data: compressed, then
    /// encrypted under a random nonce. Its body stands for the data.
    pub fn put(&self, key: &str, plaintext: &[u8]) -> (object: Result<PutObject, AppError>)
        ensures
            self.is_put(key@, plaintext@, object),
            object is Ok <==> zstd_frame(plaintext@, ZSTD_LEVEL as int).len() <= MAX_PLAINTEXT_LEN,
    {
        let nonce = random_nonce();
        self.object_to_put(key, zstd_compress(plaintext), &nonce)
    }

    /// The object to fetch under a key.
    pub fn get(&self, key: &str) -> (object: GetObject)
        ensures
            object.bucket@ == self.bucket(),
            object.key@ == key@,
    {
        GetObject { bucket: self.bucket.clone(), key: key.to_owned() }
    }

    /// What a fetched object stands for: decrypted, then decompressed.
    pub fn received(&self, reply: GetReply) -> (content: Result<Vec<u8>, AppError>)
        ensures
            bytes_result(content) == fetched(self.key(), reply),
    {
        match reply {
            GetReply::Refused(failure) => Err(s3_get_error(failure)),
            GetReply::Broken(failure) => Err(s3_error(failure)),
            GetReply::Body(body) => match self.crypto.decrypt(body.as_slice()) {
                Ok(compressed) => zstd_decompress(compressed.as_slice()),
                Err(error) => Err(AppError::Crypto(error)),
            },
        }
    }
}

// ---------------------------------------------------------------------------
// Listing
// ---------------------------------------------------------------------------

/// One object as the bucket lists it.
pub struct ListedObject {
    pub key: Option<String>,
    /// In seconds since the epoch.
    pub last_modified: Option<i64>,
    pub size: Option<i64>,
}

pub struct ListedView {
    pub key: Option<Seq<char>>,
    pub last_modified: Option<i64>,
    pub size: Option<i64>,
}

impl View for ListedObject {
    type V = ListedView;

    open spec fn view(&self) -> ListedView {
        ListedView {
            key: text_view(self.key),
            last_modified: self.last_modified,
            size: self.size,
        }
    }
}

/// One page of a listing.
pub struct ListPage {
    pub contents: Vec<ListedObject>,
    pub is_truncated: Option<bool>,
    pub next_continuation_token: Option<String>,
}

pub struct PageView {
    pub contents: Seq<ListedView>,
    pub is_truncated: Option<bool>,
    pub next_continuation_token: Option<Seq<char>>,
}

impl View for ListPage {
    type V = PageView;

    open spec fn view(&self) -> PageView {
        PageView {
            contents: self.contents@.map_values(|object: ListedObject| object@),
            is_truncated: self.is_truncated,
            next_continuation_token: text_view(self.next_continuation_token),
        }
    }
}

impl PageView {
    /// More pages follow.
    pub open spec fn has_more(self) -> bool {
        self.is_truncated == Some(true)
    }
}

/// What is known of a stored object.
#[derive(Debug)]
pub struct StoredObjectMeta {
    pub key: String,
    pub last_modified_epoch_seconds: Option<i64>,
    pub size_bytes: Option<u64>,
}

impl Clone for StoredObjectMeta {
    fn clone(&self) -> (copy: Self)
        ensures
            copy@ == self@,
    {
        StoredObjectMeta {
            key: self.key.clone(),
            last_modified_epoch_seconds: self.last_modified_epoch_seconds,
            size_bytes: self.size_bytes,
        }
    }
}

pub struct MetaView {
    pub key: Seq<char>,
    pub last_modified_epoch_seconds: Option<i64>,
    pub size_bytes: Option<u64>,
}

impl View for StoredObjectMeta {
    type V = MetaView;

    open spec fn view(&self) -> MetaView {
        MetaView {
            key: self.key@,
            last_modified_epoch_seconds: self.last_modified_epoch_seconds,
            size_bytes: self.size_bytes,
        }
    }
}

pub open spec fn metas_view(metas: Seq<StoredObjectMeta>) -> Seq<MetaView> {
    metas.map_values(|meta: StoredObjectMeta| meta@)
}

/// A size as the bucket gives it, where it makes sense.
pub open spec fn valid_size(size: Option<i64>) -> Option<u64> {
    match size {
        Some(n) => if n >= 0 {
            Some(n as u64)
        } else {
            None
        },
        None => None,
    }
}

/// The objects of a page that have a key.
pub open spec fn metas(contents: Seq<ListedView>) -> Seq<MetaView>
    decreases contents.len(),
{
    if contents.len() == 0 {
        seq![]
    } else {
        let before = metas(contents.drop_last());
        match contents.last().key {
            Some(key) => before.push(
                MetaView {
                    key,
                    last_modified_epoch_seconds: contents.last().last_modified,
                    size_bytes: valid_size(contents.last().size),
                },
            ),
            None => before,
        }
    }
}

/// The keys of objects.
pub open spec fn keys_of(objects: Seq<MetaView>) -> Seq<Seq<char>> {
    objects.map_values(|object: MetaView| object.key)
}

/// Adds the objects of a page to what was listed before.
fn collect_objects(contents: Vec<ListedObject>, objects: &mut Vec<StoredObjectMeta>)
    ensures
        metas_view(final(objects)@) == metas_view(old(objects)@) + metas(
            contents@.map_values(|object: ListedObject| object@),
        ),
{
    let ghost before = metas_view(objects@);
    let ghost all = contents@.map_values(|object: ListedObject| object@);
    let mut i: usize = 0;
    while i < contents.len()
        invariant
            i <= contents@.len(),
            all == contents@.map_values(|object: ListedObject| object@),
            metas_view(objects@) == before + metas(all.take(i as int)),
        decreases contents@.len() - i,
    {
        assert(all.take(i + 1).drop_last() == all.take(i as int));
        let ghost so_far = metas_view(objects@);
        match &contents[i].key {
            Some(key) => {
                let meta = StoredObjectMeta {
                    key: key.clone(),
                    last_modified_epoch_seconds: contents[i].last_modified,
                    size_bytes: match contents[i].size {
                        Some(n) => if n >= 0 {
                            Some(n as u64)
                        } else {
                            None
                        },
                        None => None,
                    },
                };
                objects.push(meta);
                assert(metas_view(objects@) == so_far.push(meta@));
            },
            None => {},
        }
        i += 1;
    }
    assert(all.take(i as int) == all);
}

/// Takes the keys of objects.
pub fn object_keys(objects: Vec<StoredObjectMeta>) -> (keys: Vec<String>)
    ensures
        texts_view(keys@) == keys_of(metas_view(objects@)),
{
    let mut keys: Vec<String> = Vec::new();
    let mut i: usize = 0;
    while i < objects.len()
        invariant
            i <= objects@.len(),
            texts_view(keys@) == keys_of(metas_view(objects@.take(i as int))),
        decreases objects@.len() - i,
    {
        let ghost so_far = texts_view(keys@);
        keys.push(objects[i].key.clone());
        assert(texts_view(keys@) == so_far.push(objects@[i as int].key@));
        i += 1;
    }
    keys
}

/// A request for a page of the objects under a prefix.
pub struct ListRequest {
    pub bucket: String,
    pub prefix: String,
    pub continuation_token: Option<String>,
}

pub struct ListRequestView {
    pub bucket: Seq<char>,
    pub prefix: Seq<char>,
    pub continuation_token: Option<Seq<char>>,
}

impl View for ListRequest {
    type V = ListRequestView;

    open spec fn view(&self) -> ListRequestView {
        ListRequestView {
            bucket: self.bucket@,
            prefix: self.prefix@,
            continuation_token: text_view(self.continuation_token),
        }
    }
}

impl ListRequestView {
    /// The request for the page that follows.
    pub open spec fn following(self, token: Option<Seq<char>>) -> ListRequestView {
        ListRequestView { continuation_token: token, ..self }
    }
}

impl ListRequest {
    fn copy(&self) -> (request: ListRequest)
        ensures
            request@ == self@,
    {
        ListRequest {
            bucket: self.bucket.clone(),
            prefix: self.prefix.clone(),
            continuation_token: match &self.continuation_token {
                Some(token) => Some(token.clone()),
                None => None,
            },
        }
    }
}

/// A listing that waits for its next page.
pub struct Listing {
    request: ListRequest,
    objects: Vec<StoredObjectMeta>,
}

pub struct ListingView {
    /// What was asked for.
    pub request: ListRequestView,
    /// What the pages so far held.
    pub objects: Seq<MetaView>,
}

impl View for Listing {
    type V = ListingView;

    closed spec fn view(&self) -> ListingView {
        ListingView { request: self.request@, objects: metas_view(self.objects@) }
    }
}

/// What a page makes of a listing.
pub enum Listed {
    /// There are more pages.
    More(Listing),
    Complete(Vec<StoredObjectMeta>),
}

pub enum ListedStep {
    More(ListingView),
    Complete(Seq<MetaView>),
}

impl View for Listed {
    type V = ListedStep;

    open spec fn view(&self) -> ListedStep {
        match *self {
            Listed::More(listing) => ListedStep::More(listing@),
            Listed::Complete(objects) => ListedStep::Complete(metas_view(objects@)),
        }
    }
}

impl ListingView {
    /// What a page makes of the listing.
    pub open spec fn step(self, page: PageView) -> ListedStep {
        let objects = self.objects + metas(page.contents);
        if page.has_more() {
            ListedStep::More(
                ListingView {
                    request: self.request.following(page.next_continuation_token),
                    objects,
                },
            )
        } else {
            ListedStep::Complete(objects)
        }
    }

    /// What a run of pages makes of the listing, if it ends with the last.
    pub open spec fn run(self, pages: Seq<PageView>) -> Option<Seq<MetaView>>
        decreases pages.len(),
    {
        if pages.len() == 0 {
            None
        } else {
            match self.step(pages.first()) {
                ListedStep::Complete(objects) => if pages.len() == 1 {
                    Some(objects)
                } else {
                    None
                },
                ListedStep::More(listing) => listing.run(pages.drop_first()),
            }
        }
    }
}

impl Listing {
    /// The request for the page that the listing waits for.
    pub fn request(&self) -> (request: ListRequest)
        ensures
            request@ == self@.request,
    {
        self.request.copy()
    }

    /// Takes in the reply to the request.
    pub fn receive(self, reply: Result<ListPage, S3Failure>) -> (next: Result<Listed, AppError>)
        ensures
            match reply {
                Ok(page) => next matches Ok(next) && next@ == self@.step(page@),
                Err(failure) => next matches Err(error) && error@ == failure.error(),
            },
    {
        let page = match reply {
            Ok(page) => page,
            Err(failure) => {
                return Err(s3_error(failure));
            },
        };
        let mut objects = self.objects;
        collect_objects(page.contents, &mut objects);
        let more = match page.is_truncated {
            Some(truncated) => truncated,
            None => false,
        };
        if more {
            Ok(
                Listed::More(
                    Listing {
                        request: ListRequest {
                            bucket: self.request.bucket,
                            prefix: self.request.prefix,
                            continuation_token: page.next_continuation_token,
                        },
                        objects,
                    },
                ),
            )
        } else {
            Ok(Listed::Complete(objects))
        }
    }
}

/// A listing of keys that waits for its next page.
pub struct KeyListing {
    pub listing: Listing,
}

/// What a page makes of a listing of keys.
pub enum ListedKeys {
    /// There are more pages.
    More(KeyListing),
    Complete(Vec<String>),
}

impl KeyListing {
    /// The request for the page that the listing waits for.
    pub fn request(&self) -> (request: ListRequest)
        ensures
            request@ == self.listing@.request,
    {
        self.listing.request()
    }

    /// Takes in the reply to the request.
    pub fn receive(self, reply: Result<ListPage, S3Failure>) -> (next: Result<ListedKeys, AppError>)
        ensures
            match reply {
                Ok(page) => match self.listing@.step(page@) {
                    ListedStep::More(listing) => next matches Ok(ListedKeys::More(more))
                        && more.listing@ == listing,
                    ListedStep::Complete(objects) => next matches Ok(ListedKeys::Complete(keys))
                        && texts_view(keys@) == keys_of(objects),
                },
                Err(failure) => next matches Err(error) && error@ == failure.error(),
            },
    {
        match self.listing.receive(reply) {
            Ok(Listed::More(listing)) => Ok(ListedKeys::More(KeyListing { listing })),
            Ok(Listed::Complete(objects)) => Ok(ListedKeys::Complete(object_keys(objects))),
            Err(error) => Err(error),
        }
    }
}

impl Storage {
    /// The first request for the objects under a prefix.
    pub open spec fn list_request(&self, prefix: Seq<char>) -> ListRequestView {
        ListRequestView { bucket: self.bucket(), prefix, continuation_token: None }
    }

    fn first_request(&self, prefix: &str) -> (request: ListRequest)
        ensures
            request@ == self.list_request(prefix@),
    {
        ListRequest {
            bucket: self.bucket.clone(),
            prefix: prefix.to_owned(),
            continuation_token: None,
        }
    }

    /// Starts to list the objects under a prefix.
    pub fn list_prefix_objects(&self, prefix: &str) -> (listing: Listing)
        ensures
            listing@ == (ListingView { request: self.list_request(prefix@), objects: seq![] }),
    {
        let listing = Listing { request: self.first_request(prefix), objects: Vec::new() };
        assert(listing@.objects == Seq::<MetaView>::empty());
        listing
    }

    /// Starts to list the keys under a prefix.
    pub fn list_prefix_keys(&self, prefix: &str) -> (listing: KeyListing)
        ensures
            listing.listing@ == (ListingView {
                request: self.list_request(prefix@),
                objects: seq![],
            }),
    {
        KeyListing { listing: self.list_prefix_objects(prefix) }
    }
}

/// The objects of a run of pages, one page after the other.
pub open spec fn all_metas(pages: Seq<PageView>) -> Seq<MetaView>
    decreases pages.len(),
{
    if pages.len() == 0 {
        seq![]
    } else {
        metas(pages.first().contents) + all_metas(pages.drop_first())
    }
}

/// A listing ends with the first page that has no more after it, and holds
/// what all pages held, in their order.
pub proof fn law_listing_collects_all_pages(listing: ListingView, pages: Seq<PageView>)
    ensures
        listing.run(pages) is Some <==> pages.len() > 0 && !pages.last().has_more()
            && forall|i: int| 0 <= i < pages.len() - 1 ==> (#[trigger] pages[i]).has_more(),
        listing.run(pages) is Some ==> listing.run(pages) == Some(
            listing.objects + all_metas(pages),
        ),
    decreases pages.len(),
{
    if pages.len() > 0 {
        let rest = pages.drop_first();
        match listing.step(pages.first()) {
            ListedStep::More(next) => {
                law_listing_collects_all_pages(next, rest);
                assert(listing.objects + metas(pages.first().contents) + all_metas(rest)
                    =~= listing.objects + all_metas(pages));
                if rest.len() > 0 && forall|i: int|
                    0 <= i < rest.len() - 1 ==> (#[trigger] rest[i]).has_more() {
                    assert forall|i: int| 0 <= i < pages.len() - 1 implies (
                    #[trigger] pages[i]).has_more() by {
                        if i > 0 {
                            assert(rest[i - 1] == pages[i]);
                        }
                    }
                }
            },
            ListedStep::Complete(_) => {},
        }
    }
}

// ---------------------------------------------------------------------------
// Deleting
// ---------------------------------------------------------------------------

/// A request to delete some objects.
pub struct DeleteRequest {
    pub bucket: String,
    pub keys: Vec<String>,
}

/// Deleting all objects under a prefix, at the point where the next page of
/// the listing is waited for.
pub struct PrefixDeletion {
    request: ListRequest,
    deleted: u64,
}

pub struct PrefixDeletionView {
    /// What was asked for.
    pub request: ListRequestView,
    /// How many objects were deleted so far.
    pub deleted: nat,
}

impl View for PrefixDeletion {
    type V = PrefixDeletionView;

    closed spec fn view(&self) -> PrefixDeletionView {
        PrefixDeletionView { request: self.request@, deleted: self.deleted as nat }
    }
}

/// Deleting all objects under a prefix, at the point where the objects of one
/// page are being deleted.
pub struct PendingDeletion {
    following: ListRequest,
    keys: Vec<String>,
    more: bool,
    deleted: u64,
}

pub struct PendingDeletionView {
    /// The request for the page that follows.
    pub following: ListRequestView,
    /// What is being deleted.
    pub keys: Seq<Seq<char>>,
    /// Whether a page follows.
    pub more: bool,
    /// How many objects were deleted before.
    pub deleted: nat,
}

impl View for PendingDeletion {
    type V = PendingDeletionView;

    closed spec fn view(&self) -> PendingDeletionView {
        PendingDeletionView {
            following: self.following@,
            keys: texts_view(self.keys@),
            more: self.more,
            deleted: self.deleted as nat,
        }
    }
}

/// What comes next when all objects under a prefix are deleted.
pub enum PrefixNext {
    /// Ask for a page.
    List(PrefixDeletion),
    /// Delete the objects of a page.
    Delete(PendingDeletion),
    /// All is done, with so many objects deleted.
    Done(u64),
}

pub enum PrefixStep {
    List(PrefixDeletionView),
    Delete(PendingDeletionView),
    Done(nat),
}

impl View for PrefixNext {
    type V = PrefixStep;

    open spec fn view(&self) -> PrefixStep {
        match *self {
            PrefixNext::List(deletion) => PrefixStep::List(deletion@),
            PrefixNext::Delete(pending) => PrefixStep::Delete(pending@),
            PrefixNext::Done(deleted) => PrefixStep::Done(deleted as nat),
        }
    }
}

impl PendingDeletionView {
    /// What comes next once the objects are deleted.
    pub open spec fn confirmed(self) -> PrefixStep {
        let deleted = self.deleted + self.keys.len();
        if self.more {
            PrefixStep::List(PrefixDeletionView { request: self.following, deleted })
        } else {
            PrefixStep::Done(deleted)
        }
    }
}

impl PrefixDeletionView {
    /// What comes next after a page. Where the page has no keys, there is
    /// nothing to delete.
    pub open spec fn step(self, page: PageView) -> PrefixStep {
        let keys = keys_of(metas(page.contents));
        let pending = PendingDeletionView {
            following: self.request.following(page.next_continuation_token),
            keys,
            more: page.has_more(),
            deleted: self.deleted,
        };
        if keys.len() > 0 {
            PrefixStep::Delete(pending)
        } else {
            pending.confirmed()
        }
    }

    /// The keys that are deleted over a run of pages, and the count in the
    /// end, if the last page ends it and no request fails.
    pub open spec fn run(self, pages: Seq<PageView>) -> Option<(Seq<Seq<char>>, nat)>
        decreases pages.len(),
    {
        if pages.len() == 0 {
            None
        } else {
            let (keys, next) = match self.step(pages.first()) {
                PrefixStep::Delete(pending) => (pending.keys, pending.confirmed()),
                other => (seq![], other),
            };
            match next {
                PrefixStep::List(deletion) => match deletion.run(pages.drop_first()) {
                    Some((later, deleted)) => Some((keys + later, deleted)),
                    None => None,
                },
                PrefixStep::Done(deleted) => if pages.len() == 1 {
                    Some((keys, deleted))
                } else {
                    None
                },
                PrefixStep::Delete(_) => None,
            }
        }
    }
}

impl PrefixDeletion {
    /// The request for the page that is waited for.
    pub fn request(&self) -> (request: ListRequest)
        ensures
            request@ == self@.request,
    {
        self.request.copy()
    }

    /// Takes in the reply to the request.
    pub fn receive(self, reply: Result<ListPage, S3Failure>) -> (next: Result<PrefixNext, AppError>)
        ensures
            match reply {
                Ok(page) => next matches Ok(next) && next@ == self@.step(page@),
                Err(failure) => next matches Err(error) && error@ == failure.error(),
            },
    {
        let page = match reply {
            Ok(page) => page,
            Err(failure) => {
                return Err(s3_error(failure));
            },
        };
        let mut objects: Vec<StoredObjectMeta> = Vec::new();
        collect_objects(page.contents, &mut objects);
        let keys = object_keys(objects);
        let more = match page.is_truncated {
            Some(truncated) => truncated,
            None => false,
        };
        let following = ListRequest {
            bucket: self.request.bucket,
            prefix: self.request.prefix,
            continuation_token: page.next_continuation_token,
        };
        if keys.len() > 0 {
            Ok(PrefixNext::Delete(PendingDeletion { following, keys, more, deleted: self.deleted }))
        } else if more {
            Ok(PrefixNext::List(PrefixDeletion { request: following, deleted: self.deleted }))
        } else {
            Ok(PrefixNext::Done(self.deleted))
        }
    }
}

impl PendingDeletion {
    /// The request that deletes the objects.
    pub fn request(&self) -> (request: DeleteRequest)
        ensures
            request.bucket@ == self@.following.bucket,
            texts_view(request.keys@) == self@.keys,
    {
        DeleteRequest {
            bucket: self.following.bucket.clone(),
            keys: copy_texts(&self.keys, 0, self.keys.len()),
        }
    }

    /// How many objects were deleted before these.
    pub fn deleted(&self) -> (deleted: u64)
        ensures
            deleted == self@.deleted,
    {
        self.deleted
    }

    /// Takes in the reply to the request.
    pub fn confirm(self, reply: Result<(), S3Failure>) -> (next: Result<PrefixNext, AppError>)
        requires
            reply is Ok ==> self@.deleted + self@.keys.len() <= u64::MAX,
        ensures
            match reply {
                Ok(_) => next matches Ok(next) && next@ == self@.confirmed(),
                Err(failure) => next matches Err(error) && error@ == failure.error(),
            },
    {
        match reply {
            Ok(_) => {
                let deleted: u64 = self.deleted + self.keys.len() as u64;
                if self.more {
                    Ok(PrefixNext::List(PrefixDeletion { request: self.following, deleted }))
                } else {
                    Ok(PrefixNext::Done(deleted))
                }
            },
            Err(failure) => Err(s3_error(failure)),
        }
    }
}

/// Copies a range of texts.
fn copy_texts(texts: &Vec<String>, start: usize, end: usize) -> (copy: Vec<String>)
    requires
        start <= end <= texts@.len(),
    ensures
        texts_view(copy@) == texts_view(texts@).subrange(start as int, end as int),
{
    let mut copy: Vec<String> = Vec::new();
    let mut i: usize = start;
    let ghost all = texts_view(texts@);
    while i < end
        invariant
            start <= i <= end <= texts@.len(),
            all == texts_view(texts@),
            texts_view(copy@) == all.subrange(start as int, i as int),
        decreases end - i,
    {
        let ghost so_far = texts_view(copy@);
        copy.push(texts[i].clone());
        assert(texts_view(copy@) == so_far.push(all[i as int]));
        i += 1;
    }
    copy
}

/// Deleting given objects, in batches.
pub struct KeyDeletion {
    bucket: String,
    keys: Vec<String>,
    done: usize,
}

pub struct KeyDeletionView {
    pub bucket: Seq<char>,
    pub keys: Seq<Seq<char>>,
    /// How many of the objects are deleted.
    pub done: nat,
}

impl View for KeyDeletion {
    type V = KeyDeletionView;

    closed spec fn view(&self) -> KeyDeletionView {
        KeyDeletionView {
            bucket: self.bucket@,
            keys: texts_view(self.keys@),
            done: self.done as nat,
        }
    }
}

impl KeyDeletionView {
    /// Where the batch that is next ends.
    pub open spec fn batch_end(self) -> nat {
        if self.done + DELETE_BATCH < self.keys.len() {
            self.done + DELETE_BATCH as nat
        } else {
            self.keys.len()
        }
    }

    /// The batch that is next.
    pub open spec fn batch(self) -> Seq<Seq<char>> {
        self.keys.subrange(self.done as int, self.batch_end() as int)
    }

    /// What is left to be done once the batch is deleted.
    pub open spec fn confirmed(self) -> KeyDeletionView {
        KeyDeletionView { done: self.batch_end(), ..self }
    }

    /// The batches that are still to be deleted.
    pub open spec fn batches(self) -> Seq<Seq<Seq<char>>>
        decreases self.keys.len() - self.done,
    {
        if self.done < self.keys.len() {
            seq![self.batch()] + self.confirmed().batches()
        } else {
            seq![]
        }
    }
}

impl KeyDeletion {
    #[verifier::type_invariant]
    spec fn in_range(self) -> bool {
        self.done <= self.keys@.len()
    }

    /// The request that deletes the next batch, if there is one.
    pub fn request(&self) -> (request: Option<DeleteRequest>)
        ensures
            match request {
                Some(request) => self@.done < self@.keys.len() && request.bucket@ == self@.bucket
                    && texts_view(request.keys@) == self@.batch(),
                None => self@.done == self@.keys.len(),
            },
    {
        proof {
            use_type_invariant(self);
        }
        if self.done < self.keys.len() {
            let end = self.batch_end();
            Some(
                DeleteRequest {
                    bucket: self.bucket.clone(),
                    keys: copy_texts(&self.keys, self.done, end),
                },
            )
        } else {
            None
        }
    }

    fn batch_end(&self) -> (end: usize)
        ensures
            end == self@.batch_end(),
            self.done <= end <= self.keys@.len(),
    {
        proof {
            use_type_invariant(self);
        }
        if self.keys.len() - self.done > DELETE_BATCH {
            self.done + DELETE_BATCH
        } else {
            self.keys.len()
        }
    }

    /// How many objects are deleted.
    pub fn deleted(&self) -> (deleted: u64)
        ensures
            deleted == self@.done,
    {
        self.done as u64
    }

    /// Takes in the reply to the request.
    pub fn confirm(self, reply: Result<(), S3Failure>) -> (next: Result<KeyDeletion, AppError>)
        ensures
            match reply {
                Ok(_) => next matches Ok(next) && next@ == self@.confirmed(),
                Err(failure) => next matches Err(error) && error@ == failure.error(),
            },
    {
        match reply {
            Ok(_) => {
                let done = self.batch_end();
                Ok(KeyDeletion { bucket: self.bucket, keys: self.keys, done })
            },
            Err(failure) => Err(s3_error(failure)),
        }
    }
}

impl Storage {
    /// Starts to delete all objects under a prefix.
    pub fn delete_prefix(&self, prefix: &str) -> (deletion: PrefixDeletion)
        ensures
            deletion@ == (PrefixDeletionView { request: self.list_request(prefix@), deleted: 0 }),
    {
        PrefixDeletion { request: self.first_request(prefix), deleted: 0 }
    }

    /// Starts to delete the given objects.
    pub fn delete_keys(&self, keys: Vec<String>) -> (deletion: KeyDeletion)
        ensures
            deletion@ == (KeyDeletionView {
                bucket: self.bucket(),
                keys: texts_view(keys@),
                done: 0,
            }),
    {
        KeyDeletion { bucket: self.bucket.clone(), keys, done: 0 }
    }
}

/// Deleting under a prefix goes through the pages up to the first that has no
/// more after it, deletes every object on them, in their order, and counts each.
pub proof fn law_prefix_deletion_covers_all_pages(
    deletion: PrefixDeletionView,
    pages: Seq<PageView>,
)
    ensures
        deletion.run(pages) is Some <==> pages.len() > 0 && !pages.last().has_more()
            && forall|i: int| 0 <= i < pages.len() - 1 ==> (#[trigger] pages[i]).has_more(),
        deletion.run(pages) is Some ==> deletion.run(pages) == Some(
            (keys_of(all_metas(pages)), deletion.deleted + all_metas(pages).len()),
        ),
    decreases pages.len(),
{
    if pages.len() > 0 {
        let page = pages.first();
        let rest = pages.drop_first();
        let found = metas(page.contents);
        if page.has_more() {
            let next = PrefixDeletionView {
                request: deletion.request.following(page.next_continuation_token),
                deleted: deletion.deleted + found.len(),
            };
            law_prefix_deletion_covers_all_pages(next, rest);
            if forall|i: int| 0 <= i < rest.len() - 1 ==> (#[trigger] rest[i]).has_more() {
                assert forall|i: int| 0 <= i < pages.len() - 1 implies (
                #[trigger] pages[i]).has_more() by {
                    if i > 0 {
                        assert(rest[i - 1] == pages[i]);
                    }
                }
            }
        }
    }
}

/// The batches hold all keys, in their order, none twice; each has at least
/// one and at most as many as a request takes, and only the last has fewer.
pub proof fn law_batches_cover_all_keys(deletion: KeyDeletionView)
    requires
        deletion.done <= deletion.keys.len(),
    ensures
        deletion.batches().flatten() == deletion.keys.skip(deletion.done as int),
        forall|i: int|
            0 <= i < deletion.batches().len() ==> 1 <= (
            #[trigger] deletion.batches()[i]).len() <= DELETE_BATCH,
        forall|i: int|
            0 <= i < deletion.batches().len() - 1 ==> (#[trigger] deletion.batches()[i]).len()
                == DELETE_BATCH,
    decreases deletion.keys.len() - deletion.done,
{
    let batches = deletion.batches();
    if deletion.done < deletion.keys.len() {
        let next = deletion.confirmed();
        let rest = next.batches();
        law_batches_cover_all_keys(next);
        assert(batches.drop_first() =~= rest);
    }
}

/// What was stored is read back: fetching an object that was put gives its
/// content.
pub proof fn law_stored_object_reads_back(
    storage: Storage,
    key: Seq<char>,
    content: Seq<u8>,
    object: PutObject,
)
    requires
        storage.is_put(key, content, Ok(object)),
    ensures
        fetched(storage.key(), GetReply::Body(object.body)) == Ok::<_, ErrorView>(content),
{
}

// ---------------------------------------------------------------------------
// Laws of listing, of failures and of stored bodies
// ---------------------------------------------------------------------------

/// Objects are taken from a listing one by one, in their order. One without a key
/// is passed over; of the others the key and the time are kept, and the size
/// unless it is negative.
pub proof fn law_listed_objects_are_taken_one_by_one(
    before: Seq<ListedView>,
    object: ListedView,
    behind: Seq<ListedView>,
)
    ensures
        metas(before + seq![object] + behind) == metas(before) + metas(seq![object]) + metas(
            behind,
        ),
        object.key is None ==> metas(seq![object]).len() == 0,
        object.key matches Some(key) ==> {
            &&& metas(seq![object]).len() == 1
            &&& metas(seq![object])[0].key == key
            &&& metas(seq![object])[0].last_modified_epoch_seconds == object.last_modified
            &&& match metas(seq![object])[0].size_bytes {
                Some(n) => object.size matches Some(size) && size == n,
                None => object.size is None || object.size->0 < 0,
            }
        },
{
    lemma_metas_append(before + seq![object], behind);
    lemma_metas_append(before, seq![object]);
    reveal_with_fuel(metas, 2);
    assert(seq![object].drop_last() =~= Seq::<ListedView>::empty());
}

proof fn lemma_metas_append(a: Seq<ListedView>, b: Seq<ListedView>)
    ensures
        metas(a + b) == metas(a) + metas(b),
    decreases b.len(),
{
    if b.len() > 0 {
        lemma_metas_append(a, b.drop_last());
        assert((a + b).drop_last() =~= a + b.drop_last());
    } else {
        assert(a + b =~= a);
    }
}

/// A listing goes on exactly where a page says that it is truncated. It asks for
/// the next page of the same prefix of the same bucket, with the token that the
/// page gives; and what it has found so far stays, before what the page holds.
pub proof fn law_listing_goes_on_where_truncated(listing: ListingView, page: PageView)
    ensures
        match listing.step(page) {
            ListedStep::More(next) => {
                &&& page.is_truncated == Some(true)
                &&& next.request.bucket == listing.request.bucket
                &&& next.request.prefix == listing.request.prefix
                &&& next.request.continuation_token == page.next_continuation_token
                &&& next.objects == listing.objects + metas(page.contents)
            },
            ListedStep::Complete(objects) => {
                &&& page.is_truncated != Some(true)
                &&& objects == listing.objects + metas(page.contents)
            },
        },
        page.has_more() <==> page.is_truncated == Some(true),
{
}

/// Deleting under a prefix deletes the objects of a page, if it has any, and then
/// goes on exactly where the page says that it is truncated. Each deleted object
/// is counted.
pub proof fn law_deletion_goes_on_where_truncated(deletion: PrefixDeletionView, page: PageView)
    ensures
        ({
            let keys = keys_of(metas(page.contents));
            let next = match deletion.step(page) {
                PrefixStep::Delete(pending) => pending.confirmed(),
                other => other,
            };
            &&& deletion.step(page) is Delete <==> keys.len() > 0
            &&& deletion.step(page) matches PrefixStep::Delete(pending) ==> pending.keys == keys
                && pending.deleted == deletion.deleted
            &&& match next {
                PrefixStep::List(next) => {
                    &&& page.is_truncated == Some(true)
                    &&& next.request.bucket == deletion.request.bucket
                    &&& next.request.prefix == deletion.request.prefix
                    &&& next.request.continuation_token == page.next_continuation_token
                    &&& next.deleted == deletion.deleted + keys.len()
                },
                PrefixStep::Done(deleted) => {
                    &&& page.is_truncated != Some(true)
                    &&& deleted == deletion.deleted + keys.len()
                },
                PrefixStep::Delete(_) => false,
            }
        }),
{
}

/// A listing starts at the front, with all that is under a prefix of the bucket.
pub proof fn law_listing_starts_at_the_front(storage: Storage, prefix: Seq<char>)
    ensures
        storage.list_request(prefix).bucket == storage.bucket(),
        storage.list_request(prefix).prefix == prefix,
        storage.list_request(prefix).continuation_token is None,
{
}

/// The keys are those of the objects, in their order. A request to delete takes a
/// thousand of them at most.
pub proof fn law_keys_of_objects(objects: Seq<MetaView>)
    ensures
        keys_of(objects).len() == objects.len(),
        forall|i: int| 0 <= i < objects.len() ==> #[trigger] keys_of(objects)[i] == objects[i].key,
        DELETE_BATCH == 1000,
{
}

/// A failed request is reported with both wordings of the failure, where they
/// differ, and with the one where they do not.
pub proof fn law_failure_is_reported_in_full(failure: S3Failure)
    ensures
        failure.display@ == failure.debug@ ==> failure.error() == ErrorView::S3(failure.display@),
        failure.display@ != failure.debug@ ==> failure.error() == ErrorView::S3(
            failure.display@ + "; details: "@ + failure.debug@,
        ),
{
}

/// An object is not found exactly where the failed request for it says so, in one
/// of the ways that buckets have; else the failure is reported in full.
pub proof fn law_missing_object_is_not_found(failure: S3Failure)
    ensures
        failure.get_error() is NotFound <==> {
            ||| exists|a: Seq<char>, b: Seq<char>|
                failure.display@ == #[trigger] (a + "NoSuchKey"@ + b)
            ||| exists|a: Seq<char>, b: Seq<char>|
                failure.display@ == #[trigger] (a + "not found"@ + b)
            ||| exists|a: Seq<char>, b: Seq<char>|
                failure.debug@ == #[trigger] (a + "NoSuchKey"@ + b)
            ||| exists|a: Seq<char>, b: Seq<char>|
                failure.debug@ == #[trigger] (a + "NotFound"@ + b)
        },
        !(failure.get_error() is NotFound) ==> failure.get_error() == ErrorView::S3(
            failure.display@ + "; details: "@ + failure.debug@,
        ),
{
    lemma_occurs_between(failure.display@, "NoSuchKey"@);
    lemma_occurs_between(failure.display@, "not found"@);
    lemma_occurs_between(failure.debug@, "NoSuchKey"@);
    lemma_occurs_between(failure.debug@, "NotFound"@);
}

/// A fetched object is what its body stands for; where the request failed, or the
/// body could not be read, that is reported.
pub proof fn law_reply_is_the_content_or_the_failure(key: Seq<u8>, reply: GetReply)
    ensures
        match reply {
            GetReply::Refused(failure) => fetched(key, reply) == Err::<Seq<u8>, _>(
                failure.get_error(),
            ),
            GetReply::Broken(failure) => fetched(key, reply) == Err::<Seq<u8>, _>(failure.error()),
            GetReply::Body(body) => match decrypted(key, body@) {
                Ok(frame) => match zstd_decoded(frame) {
                    Ok(content) => fetched(key, reply) == Ok::<_, ErrorView>(content),
                    Err(text) => fetched(key, reply) == Err::<Seq<u8>, _>(
                        ErrorView::Compression(text),
                    ),
                },
                Err(error) => fetched(key, reply) == Err::<Seq<u8>, _>(ErrorView::Crypto(error)),
            },
        },
{
}

/// What is known of objects, by what it holds.
pub proof fn law_objects_by_what_they_hold(objects: Seq<StoredObjectMeta>)
    ensures
        metas_view(objects).len() == objects.len(),
        forall|i: int|
            0 <= i < objects.len() ==> #[trigger] metas_view(objects)[i] == (MetaView {
                key: objects[i].key@,
                last_modified_epoch_seconds: objects[i].last_modified_epoch_seconds,
                size_bytes: objects[i].size_bytes,
            }),
{
}

/// A page of a listing, and a request for one, by what they hold.
pub proof fn law_pages_by_what_they_hold(page: ListPage, request: ListRequest)
    ensures
        page@.is_truncated == page.is_truncated,
        page@.next_continuation_token == text_view(page.next_continuation_token),
        page@.contents.len() == page.contents@.len(),
        forall|i: int|
            0 <= i < page.contents@.len() ==> #[trigger] page@.contents[i] == (ListedView {
                key: text_view(page.contents@[i].key),
                last_modified: page.contents@[i].last_modified,
                size: page.contents@[i].size,
            }),
        request@.bucket == request.bucket@,
        request@.prefix == request.prefix@,
        request@.continuation_token == text_view(request.continuation_token),
{
}

} // verus!

use sourcemap_backend::crypto::{Crypto, CryptoError};
use sourcemap_backend::error::AppError;
use sourcemap_backend::storage::{
    object_keys, s3_error, s3_get_error, zstd_compress, zstd_decompress, GetReply, KeyListing,
    ListPage, Listed, ListedKeys, ListedObject, Listing, PrefixNext, S3Failure, Storage,
    StoredObjectMeta,
};

fn storage() -> Storage {
    let crypto = Crypto::new(&"11".repeat(32)).unwrap_or_else(|_| panic!("key"));
    Storage::new("maps".to_string(), crypto)
}

fn failure(display: &str, debug: &str) -> S3Failure {
    S3Failure {
        display: display.to_string(),
        debug: debug.to_string(),
    }
}

fn object(key: Option<&str>, last_modified: Option<i64>, size: Option<i64>) -> ListedObject {
    ListedObject {
        key: key.map(|k| k.to_string()),
        last_modified,
        size,
    }
}

fn page(keys: &[&str], is_truncated: Option<bool>, token: Option<&str>) -> ListPage {
    ListPage {
        contents: keys.iter().map(|k| object(Some(k), None, None)).collect(),
        is_truncated,
        next_continuation_token: token.map(|t| t.to_string()),
    }
}

fn more(listed: Result<Listed, AppError>) -> Listing {
    match listed {
        Ok(Listed::More(listing)) => listing,
        _ => panic!("more pages should follow"),
    }
}

fn complete(listed: Result<Listed, AppError>) -> Vec<StoredObjectMeta> {
    match listed {
        Ok(Listed::Complete(objects)) => objects,
        _ => panic!("the listing should be complete"),
    }
}

#[test]
fn compressed_data_decompresses_again() {
    let data = "abcabcabc".repeat(1000).into_bytes();
    let frame = zstd_compress(&data).unwrap();
    assert_eq!(&frame[..4], &[0x28, 0xb5, 0x2f, 0xfd]);
    assert!(frame.len() < data.len());
    assert_eq!(zstd_decompress(&frame).unwrap(), data);
    assert_eq!(zstd_decompress(&zstd_compress(&[]).unwrap()).unwrap(), b"");
}

#[test]
fn data_that_is_not_compressed_is_refused() {
    assert!(matches!(
        zstd_decompress(b"plain text"),
        Err(AppError::Compression(_))
    ));
}

#[test]
fn a_stored_object_is_read_back() {
    let storage = storage();
    let object = storage
        .put("p/b/app.js.map", b"content")
        .unwrap_or_else(|_| panic!("put"));
    assert_eq!(object.bucket, "maps");
    assert_eq!(object.key, "p/b/app.js.map");
    assert_ne!(object.body, b"content");
    let request = storage.get(&object.key);
    assert_eq!(request.bucket, "maps");
    assert_eq!(request.key, "p/b/app.js.map");
    assert_eq!(
        storage.received(GetReply::Body(object.body)).unwrap(),
        b"content"
    );
}

#[test]
fn an_object_is_compressed_before_it_is_encrypted() {
    let storage = storage();
    let crypto = Crypto::new(&"11".repeat(32)).unwrap_or_else(|_| panic!("key"));
    let object = storage
        .object_to_put("k", zstd_compress(b"content"), &[9; 12])
        .unwrap_or_else(|_| panic!("put"));
    let compressed = crypto.decrypt(&object.body).unwrap();
    assert_eq!(zstd_decompress(&compressed).unwrap(), b"content");
    assert_eq!(&object.body[..12], &[9; 12]);
}

#[test]
fn a_failed_compression_is_handed_on() {
    let failed = storage().object_to_put(
        "k",
        Err(AppError::Compression("no memory".to_string())),
        &[0; 12],
    );
    assert!(matches!(failed, Err(AppError::Compression(text)) if text == "no memory"));
}

#[test]
fn foreign_bodies_are_refused() {
    let storage = storage();
    assert!(matches!(
        storage.received(GetReply::Body(vec![0; 5])),
        Err(AppError::Crypto(CryptoError::TooShort))
    ));
    assert!(matches!(
        storage.received(GetReply::Body(vec![0; 50])),
        Err(AppError::Crypto(CryptoError::Aes))
    ));
    let crypto = Crypto::new(&"11".repeat(32)).unwrap_or_else(|_| panic!("key"));
    let uncompressed = crypto.encrypt(b"plain").unwrap();
    assert!(matches!(
        storage.received(GetReply::Body(uncompressed)),
        Err(AppError::Compression(_))
    ));
}

#[test]
fn missing_objects_are_told_from_other_failures() {
    let storage = storage();
    for (display, debug) in [
        ("NoSuchKey: x", "d"),
        ("it was not found", "d"),
        ("service error", "ErrorKind::NoSuchKey"),
        ("service error", "code NotFound"),
    ] {
        assert!(matches!(
            storage.received(GetReply::Refused(failure(display, debug))),
            Err(AppError::NotFound)
        ));
    }
    assert_eq!(
        s3_get_error(failure("service error", "timeout")).to_text(),
        "s3 error: service error; details: timeout"
    );
    assert_eq!(
        s3_get_error(failure("same", "same")).to_text(),
        "s3 error: same; details: same"
    );
    assert!(matches!(
        storage.received(GetReply::Broken(failure("NoSuchKey", "NoSuchKey"))),
        Err(AppError::S3(_))
    ));
}

#[test]
fn failures_are_worded_once_where_both_wordings_agree() {
    assert_eq!(s3_error(failure("same", "same")).to_text(), "s3 error: same");
    assert_eq!(
        s3_error(failure("a", "b")).to_text(),
        "s3 error: a; details: b"
    );
}

#[test]
fn a_listing_follows_its_tokens() {
    let listing = storage().list_prefix_objects("p/");
    let request = listing.request();
    assert_eq!(request.bucket, "maps");
    assert_eq!(request.prefix, "p/");
    assert_eq!(request.continuation_token, None);

    let listing = more(listing.receive(Ok(page(&["a", "b"], Some(true), Some("t1")))));
    let request = listing.request();
    assert_eq!(request.prefix, "p/");
    assert_eq!(request.continuation_token, Some("t1".to_string()));

    let listing = more(listing.receive(Ok(page(&[], Some(true), None))));
    assert_eq!(listing.request().continuation_token, None);

    let objects = complete(listing.receive(Ok(page(&["c"], Some(false), Some("unused")))));
    assert_eq!(object_keys(objects), vec!["a", "b", "c"]);
}

#[test]
fn a_page_that_does_not_say_is_the_last() {
    let listing = storage().list_prefix_objects("p/");
    assert_eq!(complete(listing.receive(Ok(page(&["a"], None, None)))).len(), 1);
}

#[test]
fn listed_objects_need_a_key_and_a_size_that_makes_sense() {
    let page = ListPage {
        contents: vec![
            object(Some("a"), Some(7), Some(42)),
            object(None, Some(8), Some(1)),
            object(Some("b"), None, Some(-1)),
        ],
        is_truncated: None,
        next_continuation_token: None,
    };
    let objects = complete(storage().list_prefix_objects("p/").receive(Ok(page)));
    assert_eq!(objects.len(), 2);
    assert_eq!(objects[0].key, "a");
    assert_eq!(objects[0].last_modified_epoch_seconds, Some(7));
    assert_eq!(objects[0].size_bytes, Some(42));
    assert_eq!(objects[1].key, "b");
    assert_eq!(objects[1].last_modified_epoch_seconds, None);
    assert_eq!(objects[1].size_bytes, None);
    let copy = objects[0].clone();
    assert_eq!(copy.key, "a");
    assert_eq!(copy.size_bytes, Some(42));
}

#[test]
fn a_failed_page_ends_a_listing() {
    let failed = storage()
        .list_prefix_objects("p/")
        .receive(Err(failure("NotFound", "x")));
    assert!(matches!(failed, Err(AppError::S3(text)) if text == "NotFound; details: x"));
}

#[test]
fn keys_are_listed_page_by_page() {
    let listing: KeyListing = storage().list_prefix_keys("p/b/proguard");
    assert_eq!(listing.request().prefix, "p/b/proguard");
    let listing = match listing.receive(Ok(page(&["y"], Some(true), Some("t")))) {
        Ok(ListedKeys::More(listing)) => listing,
        _ => panic!("more pages should follow"),
    };
    assert_eq!(listing.request().continuation_token, Some("t".to_string()));
    match listing.receive(Ok(page(&["x"], Some(false), None))) {
        Ok(ListedKeys::Complete(keys)) => assert_eq!(keys, vec!["y", "x"]),
        _ => panic!("the listing should be complete"),
    }
    assert!(matches!(
        storage().list_prefix_keys("p").receive(Err(failure("e", "e"))),
        Err(AppError::S3(text)) if text == "e"
    ));
}

#[test]
fn a_prefix_is_deleted_page_by_page() {
    let deletion = storage().delete_prefix("p/");
    assert_eq!(deletion.request().prefix, "p/");
    let pending = match deletion.receive(Ok(page(&["a", "b"], Some(true), Some("t")))) {
        Ok(PrefixNext::Delete(pending)) => pending,
        _ => panic!("there is something to delete"),
    };
    assert_eq!(pending.request().bucket, "maps");
    assert_eq!(pending.request().keys, vec!["a", "b"]);
    assert_eq!(pending.deleted(), 0);
    let deletion = match pending.confirm(Ok(())) {
        Ok(PrefixNext::List(deletion)) => deletion,
        _ => panic!("a page follows"),
    };
    assert_eq!(deletion.request().continuation_token, Some("t".to_string()));
    let deletion = match deletion.receive(Ok(page(&[], Some(true), Some("u")))) {
        Ok(PrefixNext::List(deletion)) => deletion,
        _ => panic!("there is nothing to delete, and a page follows"),
    };
    let pending = match deletion.receive(Ok(page(&["c"], Some(false), None))) {
        Ok(PrefixNext::Delete(pending)) => pending,
        _ => panic!("there is something to delete"),
    };
    assert_eq!(pending.deleted(), 2);
    assert!(matches!(pending.confirm(Ok(())), Ok(PrefixNext::Done(3))));
}

#[test]
fn an_empty_prefix_needs_no_request_to_delete() {
    let deletion = storage().delete_prefix("p/");
    assert!(matches!(
        deletion.receive(Ok(page(&[], None, None))),
        Ok(PrefixNext::Done(0))
    ));
}

#[test]
fn a_failure_ends_the_deletion_of_a_prefix() {
    assert!(matches!(
        storage().delete_prefix("p/").receive(Err(failure("x", "x"))),
        Err(AppError::S3(text)) if text == "x"
    ));
    let pending = match storage().delete_prefix("p/").receive(Ok(page(&["a"], None, None))) {
        Ok(PrefixNext::Delete(pending)) => pending,
        _ => panic!("there is something to delete"),
    };
    assert!(matches!(
        pending.confirm(Err(failure("x", "y"))),
        Err(AppError::S3(text)) if text == "x; details: y"
    ));
}

#[test]
fn keys_are_deleted_in_batches() {
    let keys: Vec<String> = (0..2500).map(|i| format!("k{i}")).collect();
    let mut deletion = storage().delete_keys(keys.clone());
    let mut batches: Vec<Vec<String>> = Vec::new();
    while let Some(request) = deletion.request() {
        assert_eq!(request.bucket, "maps");
        batches.push(request.keys);
        deletion = deletion.confirm(Ok(())).unwrap_or_else(|_| panic!("confirm"));
    }
    let lengths: Vec<usize> = batches.iter().map(|b| b.len()).collect();
    assert_eq!(lengths, vec![1000, 1000, 500]);
    assert_eq!(batches.concat(), keys);
    assert_eq!(deletion.deleted(), 2500);
}

#[test]
fn a_full_batch_is_the_last_where_nothing_is_left() {
    let keys: Vec<String> = (0..1000).map(|i| format!("k{i}")).collect();
    let deletion = storage().delete_keys(keys);
    assert_eq!(deletion.request().map(|r| r.keys.len()), Some(1000));
    let deletion = deletion.confirm(Ok(())).unwrap_or_else(|_| panic!("confirm"));
    assert!(deletion.request().is_none());
}

#[test]
fn no_keys_need_no_request() {
    let deletion = storage().delete_keys(Vec::new());
    assert!(deletion.request().is_none());
    assert_eq!(deletion.deleted(), 0);
}

#[test]
fn a_failure_ends_the_deletion_of_keys() {
    let deletion = storage().delete_keys(vec!["a".to_string()]);
    assert!(matches!(
        deletion.confirm(Err(failure("x", "x"))),
        Err(AppError::S3(text)) if text == "x"
    ));
}

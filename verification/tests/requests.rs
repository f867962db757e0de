use sourcemap_backend::crypto::{Crypto, CryptoError};
use sourcemap_backend::error::AppError;
use sourcemap_backend::mappings::{s3_key, MappingType};
use sourcemap_backend::project::ProjectId;
use sourcemap_backend::routes::{
    apply_sourcemap, cleanup_old_builds, delete_response, delete_sourcemap, fetch_mappings,
    health, ingest,
    javascript_response, list_response, list_sourcemaps, mapping_keys, normalize_proguard_entries,
    normalized_build_ids, parse_sourcemap_key, plan_cleanup, proguard_response,
    select_builds_for_cleanup, validate_js_ingest, validate_project_sourcemap_key, wipe,
    wipe_response, Application, ApplyPayload, ApplyResponse, CleanupPayload,
    DeleteSourcemapPayload, IngestNext, IngestPayload, MappingNext, ProguardEntry, SourcemapEntry,
    INGEST_MAX_BODY_BYTES,
};
use sourcemap_backend::storage::{GetReply, S3Failure, Storage, StoredObjectMeta};

const ID: ProjectId = ProjectId { value: 7 };

const ID_TEXT: &str = "00000000-0000-0000-0000-000000000007";

fn storage() -> Storage {
    let crypto = Crypto::new(&"44".repeat(32)).unwrap_or_else(|_| panic!("key"));
    Storage::new("maps".to_string(), crypto)
}

fn meta(key: &str, modified: Option<i64>, size: Option<u64>) -> StoredObjectMeta {
    StoredObjectMeta {
        key: key.to_string(),
        last_modified_epoch_seconds: modified,
        size_bytes: size,
    }
}

fn sourcemap(name: &str, content: &str) -> SourcemapEntry {
    SourcemapEntry {
        file_name: name.to_string(),
        sourcemap: content.to_string(),
    }
}

fn proguard(name: &str, content: &str) -> ProguardEntry {
    ProguardEntry {
        file_name: name.to_string(),
        mapping: content.to_string(),
    }
}

fn strings(texts: &[&str]) -> Vec<String> {
    texts.iter().map(|t| t.to_string()).collect()
}

fn message(result: Result<(), AppError>) -> String {
    result.unwrap_err().to_text()
}

#[test]
fn the_service_is_healthy() {
    assert_eq!(health(), "ok");
    assert_eq!(INGEST_MAX_BODY_BYTES, 50 * 1024 * 1024);
}

#[test]
fn uploads_of_source_maps_are_checked_in_order() {
    let entry = sourcemap("a.js.map", "{}");
    assert!(validate_js_ingest("b", "now", &[sourcemap("a", "b"), entry]).is_ok());
    assert_eq!(
        message(validate_js_ingest(" ", " ", &[])),
        "bad request: build_id is required"
    );
    assert_eq!(
        message(validate_js_ingest("b", "\t", &[])),
        "bad request: uploaded_at is required"
    );
    assert_eq!(
        message(validate_js_ingest("b", "now", &[])),
        "bad request: no sourcemaps provided"
    );
    assert_eq!(
        message(validate_js_ingest("b", "now", &[sourcemap("a", "b"), sourcemap("", "")])),
        "bad request: file_name is required"
    );
    assert_eq!(
        message(validate_js_ingest("b", "now", &[sourcemap("a", " "), sourcemap("", "")])),
        "bad request: sourcemap is required"
    );
}

#[test]
fn uploads_of_mappings_are_checked_in_order() {
    let none: &[ProguardEntry] = &[];
    let error = |build: &str,
                 at: &str,
                 name: Option<&str>,
                 mapping: Option<&str>,
                 list: &[ProguardEntry]| {
        normalize_proguard_entries(
            build,
            at,
            &name.map(|n| n.to_string()),
            &mapping.map(|m| m.to_string()),
            list,
            &[],
        )
        .unwrap_err()
        .to_text()
    };
    assert_eq!(error("", "now", None, None, none), "bad request: build_id is required");
    assert_eq!(error("b", "", None, None, none), "bad request: uploaded_at is required");
    assert_eq!(
        error("b", "now", Some("f"), None, none),
        "bad request: mapping is required"
    );
    assert_eq!(
        error("b", "now", None, None, none),
        "bad request: no proguard mappings provided"
    );
    assert_eq!(
        error("b", "now", Some(" "), Some("m"), none),
        "bad request: file_name is required"
    );
    assert_eq!(
        error("b", "now", None, None, &[proguard("f", "")]),
        "bad request: mapping is required"
    );
}

#[test]
fn a_named_mapping_comes_behind_the_lists() {
    let normalized = normalize_proguard_entries(
        "b",
        "now",
        &Some("c.txt".to_string()),
        &Some("three".to_string()),
        &[proguard("a.txt", "one")],
        &[proguard("b.txt", "two")],
    )
    .unwrap();
    let names: Vec<&str> = normalized.iter().map(|(n, _)| n.as_str()).collect();
    assert_eq!(names, vec!["a.txt", "b.txt", "c.txt"]);
}

#[test]
fn keys_need_two_slashes() {
    assert_eq!(parse_sourcemap_key("a/b"), None);
    assert_eq!(parse_sourcemap_key(""), None);
    assert_eq!(
        parse_sourcemap_key("//"),
        Some(("".to_string(), "".to_string()))
    );
    let key = s3_key(ID, "build", "dir/file");
    assert_eq!(key, format!("{ID_TEXT}/build/dir/file"));
    assert_eq!(
        parse_sourcemap_key(&key),
        Some(("build".to_string(), "dir/file".to_string()))
    );
}

#[test]
fn keys_are_checked_before_anything_is_deleted() {
    let error = |key: &str| validate_project_sourcemap_key(ID, key).unwrap_err().to_text();
    assert_eq!(error("  "), "bad request: s3_key is required");
    assert_eq!(
        error(&format!("{ID_TEXT}/only-a-build")),
        "bad request: invalid sourcemap key"
    );
    assert_eq!(error("x/y/z"), "bad request: invalid sourcemap key");
}

#[test]
fn normalizing_twice_changes_nothing() {
    let once = normalized_build_ids(&strings(&["\u{3000}b ", "a", "b", "", "a\t"]));
    assert_eq!(once, strings(&["b", "a"]));
    assert_eq!(normalized_build_ids(&once), once);
}

#[test]
fn of_builds_of_one_age_the_last_by_name_is_the_newest() {
    let objects = [
        meta("p/a/f", Some(5), None),
        meta("p/c/f", Some(5), None),
        meta("p/b/f", Some(5), None),
        meta("p/d", Some(9), None),
    ];
    let (latest, outdated) = select_builds_for_cleanup(&objects, &[]);
    assert_eq!(latest, Some("c".to_string()));
    assert_eq!(outdated, strings(&["a", "b"]));
}

#[test]
fn a_build_of_unknown_age_is_the_oldest() {
    let objects = [
        meta("p/z/f", None, None),
        meta("p/a/f", Some(i64::MIN), None),
        meta("p/b/f", Some(-1), None),
    ];
    let (latest, outdated) = select_builds_for_cleanup(&objects, &strings(&["a"]));
    assert_eq!(latest, Some("b".to_string()));
    assert_eq!(outdated, strings(&["z"]));
    let (latest, _) = select_builds_for_cleanup(&[meta("p/z/f", None, None)], &[]);
    assert_eq!(latest, Some("z".to_string()));
}

#[test]
fn uploads_become_plans() {
    let plan = ingest(IngestPayload::JavaScript {
        build_id: "b".to_string(),
        bundler: "vite".to_string(),
        uploaded_at: "now".to_string(),
        sourcemaps: vec![sourcemap("a.js.map", "{}")],
    })
    .unwrap_or_else(|_| panic!("plan"));
    assert_eq!(plan.mapping_type, MappingType::JavaScript);
    assert_eq!(plan.build_id, "b");
    assert_eq!(plan.uploaded_at, "now");
    assert!(plan.response().ok);
    assert_eq!(plan.response().ingested_count, 1);
    let object = plan
        .next_object(&storage(), ID, 0)
        .unwrap_or_else(|_| panic!("object"))
        .unwrap_or_else(|| panic!("a file is left"));
    assert_eq!(object.key, format!("{ID_TEXT}/b/a.js.map"));
    assert_eq!(storage().received(GetReply::Body(object.body)).unwrap(), b"{}");
    assert!(matches!(plan.next_object(&storage(), ID, 1), Ok(None)));
}

#[test]
fn mappings_are_stored_in_a_directory_of_their_own() {
    let plan = ingest(IngestPayload::Proguard {
        build_id: "b".to_string(),
        uploaded_at: "now".to_string(),
        file_name: None,
        mapping: Some("text".to_string()),
        mappings: vec![],
        files: vec![],
    })
    .unwrap_or_else(|_| panic!("plan"));
    assert_eq!(plan.mapping_type, MappingType::Proguard);
    let object = plan
        .next_object(&storage(), ID, 0)
        .unwrap_or_else(|_| panic!("object"))
        .unwrap_or_else(|| panic!("a file is left"));
    assert_eq!(object.key, format!("{ID_TEXT}/b/proguard/mapping.txt"));
}

fn begun(storage: &Storage) -> IngestNext {
    ingest(IngestPayload::JavaScript {
        build_id: "b".to_string(),
        bundler: "vite".to_string(),
        uploaded_at: "now".to_string(),
        sourcemaps: vec![sourcemap("b.js.map", "{}"), sourcemap("a.js.map", "[]")],
    })
    .and_then(|plan| plan.begin(storage, ID))
    .unwrap_or_else(|_| panic!("the upload should begin"))
}

fn failure() -> S3Failure {
    S3Failure {
        display: "down".to_string(),
        debug: "down".to_string(),
    }
}

#[test]
fn a_build_is_recorded_when_all_files_are_stored() {
    let storage = storage();
    let mut next = begun(&storage);
    for (name, content) in [("b.js.map", b"{}"), ("a.js.map", b"[]")] {
        next = match next {
            IngestNext::Put(object, pending) => {
                assert_eq!(object.bucket, "maps");
                assert_eq!(object.key, format!("{ID_TEXT}/b/{name}"));
                assert_eq!(storage.received(GetReply::Body(object.body)).unwrap(), content);
                pending.confirm(&storage, Ok(())).unwrap()
            }
            IngestNext::Record(..) => panic!("a file is left"),
        };
    }
    match next {
        IngestNext::Record(record, pending) => {
            assert_eq!(record.project_id, ID);
            assert_eq!(record.build_id, "b");
            assert_eq!(record.uploaded_at, "now");
            assert_eq!(pending.plan().files.len(), 2);
            let response = pending.confirm(Ok(())).unwrap();
            assert!(response.ok);
            assert_eq!(response.ingested_count, 2);
        }
        IngestNext::Put(..) => panic!("all files are stored"),
    }
}

#[test]
fn a_failure_ends_an_upload() {
    let storage = storage();
    match begun(&storage) {
        IngestNext::Put(_, pending) => assert!(matches!(
            pending.confirm(&storage, Err(failure())),
            Err(AppError::S3(text)) if text == "down"
        )),
        IngestNext::Record(..) => panic!("a file is left"),
    }
    let mut next = begun(&storage);
    while let IngestNext::Put(_, pending) = next {
        next = pending.confirm(&storage, Ok(())).unwrap();
    }
    match next {
        IngestNext::Record(_, pending) => assert!(matches!(
            pending.confirm(Err("no connection".to_string())),
            Err(AppError::Database(text)) if text == "no connection"
        )),
        IngestNext::Put(..) => panic!("all files are stored"),
    }
}

#[test]
fn mapping_files_are_fetched_in_the_order_of_their_keys() {
    let storage = storage();
    let body = |content: &[u8]| {
        let object = storage.put("k", content).unwrap_or_else(|_| panic!("put"));
        GetReply::Body(object.body)
    };
    let fetch = fetch_mappings(strings(&["k2", "k1"]), "a: x\nb: y".to_string()).unwrap();
    let request = fetch.request(&storage);
    assert_eq!((request.bucket.as_str(), request.key.as_str()), ("maps", "k1"));
    let fetch = match fetch.receive(&storage, body(b"x.First -> a:\n")) {
        Ok(MappingNext::Fetch(fetch)) => fetch,
        _ => panic!("a file is left"),
    };
    assert_eq!(fetch.request(&storage).key, "k2");
    match fetch.receive(&storage, body(b"x.Second -> a:\nx.Third -> b:\n")) {
        Ok(MappingNext::Done(ApplyResponse::Proguard { ok, stacktrace })) => {
            assert!(ok);
            assert_eq!(stacktrace, "x.First: x\nx.Third: y");
        }
        _ => panic!("all files have come"),
    }
    assert!(matches!(
        fetch_mappings(Vec::new(), "a".to_string()),
        Err(AppError::NotFound)
    ));
    let fetch = fetch_mappings(strings(&["k2", "k1"]), "a".to_string()).unwrap();
    assert!(matches!(
        fetch.receive(&storage, GetReply::Broken(failure())),
        Err(AppError::S3(text)) if text == "down"
    ));
    let fetch = fetch_mappings(strings(&["k1"]), "a".to_string()).unwrap();
    assert!(matches!(
        fetch.receive(&storage, body(&[0xff])),
        Err(AppError::BadRequest(_))
    ));
}

#[test]
fn refused_uploads_store_nothing() {
    assert!(matches!(
        ingest(IngestPayload::JavaScript {
            build_id: "b".to_string(),
            bundler: "vite".to_string(),
            uploaded_at: "now".to_string(),
            sourcemaps: vec![],
        }),
        Err(AppError::BadRequest(text)) if text == "no sourcemaps provided"
    ));
    assert!(matches!(
        ingest(IngestPayload::Proguard {
            build_id: "b".to_string(),
            uploaded_at: "now".to_string(),
            file_name: Some("f".to_string()),
            mapping: None,
            mappings: vec![],
            files: vec![],
        }),
        Err(AppError::BadRequest(text)) if text == "mapping is required"
    ));
}

#[test]
fn a_wipe_goes_over_all_that_a_project_has() {
    let deletion = wipe(&storage(), ID);
    assert_eq!(deletion.request().bucket, "maps");
    assert_eq!(deletion.request().prefix, format!("{ID_TEXT}/"));
    let response = wipe_response(4);
    assert!(response.ok);
    assert_eq!(response.deleted_files, 4);
    assert_eq!(response.deleted_rows, 0);
}

#[test]
fn one_file_is_deleted_by_its_key() {
    let payload = DeleteSourcemapPayload {
        s3_key: format!("{ID_TEXT}/b/f"),
    };
    let deletion =
        delete_sourcemap(&storage(), ID, &payload).unwrap_or_else(|_| panic!("deletion"));
    let request = deletion.request().unwrap_or_else(|| panic!("request"));
    assert_eq!(request.keys, vec![payload.s3_key.clone()]);
    let deletion = deletion.confirm(Ok(())).unwrap_or_else(|_| panic!("confirm"));
    assert!(deletion.request().is_none());
    let response = delete_response(&deletion);
    assert!(response.ok);
    assert_eq!(response.deleted_files, 1);
    assert!(matches!(
        delete_sourcemap(&storage(), ProjectId { value: 8 }, &payload),
        Err(AppError::BadRequest(text)) if text == "invalid sourcemap key"
    ));
}

#[test]
fn files_are_listed_with_the_latest_first() {
    assert_eq!(
        list_sourcemaps(&storage(), ID).request().prefix,
        format!("{ID_TEXT}/")
    );
    let response = list_response(vec![
        meta("p/b1/x", None, Some(1)),
        meta("p/b2/a", None, None),
        meta("stray", None, Some(9)),
        meta("q/b1/x", None, Some(2)),
        meta("p/b1/y", None, Some(3)),
        meta("p/b10/z", None, Some(4)),
    ]);
    assert!(response.ok);
    let listed: Vec<(&str, &str, u64)> = response
        .sourcemaps
        .iter()
        .map(|i| (i.build_id.as_str(), i.file_name.as_str(), i.size))
        .collect();
    assert_eq!(
        listed,
        vec![
            ("b2", "a", 0),
            ("b10", "z", 4),
            ("b1", "y", 3),
            ("b1", "x", 1),
            ("b1", "x", 2),
        ]
    );
}

#[test]
fn a_script_is_traced_by_its_map() {
    let start = apply_sourcemap(
        &storage(),
        ID,
        ApplyPayload::JavaScript {
            build_id: "b".to_string(),
            file_name: "app.js".to_string(),
            line: 3,
            column: 4,
        },
    );
    match start {
        Ok(Application::JavaScript { object, file_name, line, column }) => {
            assert_eq!(object.bucket, "maps");
            assert_eq!(object.key, format!("{ID_TEXT}/b/app.js.map"));
            assert_eq!((file_name.as_str(), line, column), ("app.js", 3, 4));
        }
        _ => panic!("a source map should be fetched"),
    }
}

#[test]
fn a_stack_trace_is_traced_by_all_mappings_of_a_build() {
    let start = apply_sourcemap(
        &storage(),
        ID,
        ApplyPayload::Proguard {
            build_id: "b".to_string(),
            stacktrace: "a: x".to_string(),
        },
    );
    match start {
        Ok(Application::Proguard { listing, stacktrace }) => {
            assert_eq!(listing.request().prefix, format!("{ID_TEXT}/b/proguard"));
            assert_eq!(stacktrace, "a: x");
        }
        _ => panic!("keys should be listed"),
    }
    let keys = mapping_keys(strings(&["b", "a10", "a1"])).unwrap();
    assert_eq!(keys, strings(&["a1", "a10", "b"]));
    assert!(matches!(mapping_keys(Vec::new()), Err(AppError::NotFound)));
    let mapping: &[u8] = b"x.One -> a:\n";
    match proguard_response(&[mapping], "a: x") {
        Ok(ApplyResponse::Proguard { ok, stacktrace }) => {
            assert!(ok);
            assert_eq!(stacktrace, "x.One: x");
        }
        _ => panic!("the trace should be retraced"),
    }
    assert!(matches!(
        proguard_response(&[&[0xff][..]], "a"),
        Err(AppError::BadRequest(_))
    ));
}

#[test]
fn what_is_to_be_traced_is_checked() {
    let javascript = |build: &str, file: &str| {
        apply_sourcemap(
            &storage(),
            ID,
            ApplyPayload::JavaScript {
                build_id: build.to_string(),
                file_name: file.to_string(),
                line: 1,
                column: 1,
            },
        )
    };
    assert!(matches!(
        javascript("", ""),
        Err(AppError::BadRequest(text)) if text == "build_id is required"
    ));
    assert!(matches!(
        javascript("b", ""),
        Err(AppError::BadRequest(text)) if text == "file_name is required"
    ));
    let proguard = |build: &str, trace: &str| {
        apply_sourcemap(
            &storage(),
            ID,
            ApplyPayload::Proguard {
                build_id: build.to_string(),
                stacktrace: trace.to_string(),
            },
        )
    };
    assert!(matches!(
        proguard("", ""),
        Err(AppError::BadRequest(text)) if text == "build_id is required"
    ));
    assert!(matches!(
        proguard("b", "\n"),
        Err(AppError::BadRequest(text)) if text == "stacktrace is required"
    ));
}

#[test]
fn a_position_is_answered() {
    let map = br#"{"version":3,"sources":["a.js"],"names":[],"mappings":"AAAA"}"#;
    match javascript_response(map, "app.js", 1, 1) {
        Some(Ok(ApplyResponse::JavaScript { ok, original })) => {
            assert!(ok);
            assert_eq!(original.source, "a.js");
            assert_eq!((original.line, original.column), (1, 1));
        }
        _ => panic!("a position is owed"),
    }
    assert!(matches!(
        javascript_response(b"", "app.js", 1, 1),
        Some(Err(AppError::BadRequest(_)))
    ));
    let range =
        br#"{"version":3,"sources":["a.js"],"names":[],"mappings":"GAAA","rangeMappings":"B"}"#;
    assert!(javascript_response(range, "app.js", 2, 1).is_none());
}

#[test]
fn a_cleanup_keeps_the_newest_and_the_excluded_builds() {
    assert_eq!(
        cleanup_old_builds(&storage(), ID).request().prefix,
        format!("{ID_TEXT}/")
    );
    let objects = [
        meta("p/old/x", Some(1), None),
        meta("p/new/x", Some(3), None),
        meta("p/kept/x", Some(2), None),
        meta("stray", Some(0), None),
        meta("p/old/proguard/y", Some(1), None),
        meta("p/older/x", Some(0), None),
    ];
    let payload = CleanupPayload {
        excluded_build_ids: strings(&[" kept ", "kept", "", "none"]),
    };
    let plan = plan_cleanup(&objects, &payload);
    assert_eq!(plan.latest_build_id, Some("new".to_string()));
    assert_eq!(plan.excluded_build_ids, strings(&["kept", "none"]));
    assert_eq!(plan.deleted_build_ids, strings(&["old", "older"]));
    assert_eq!(
        plan.keys,
        strings(&["p/old/x", "p/old/proguard/y", "p/older/x"])
    );
    let response = plan.response(3);
    assert!(response.ok);
    assert_eq!(response.latest_build_id, Some("new".to_string()));
    assert_eq!(response.excluded_build_ids, strings(&["kept", "none"]));
    assert_eq!(response.deleted_build_ids, strings(&["old", "older"]));
    assert_eq!(response.deleted_files, 3);
}

#[test]
fn errors_have_their_wording_and_their_answer() {
    let text = || "x".to_string();
    let cases = [
        (AppError::Unauthorized, "unauthorized", 401, "unauthorized"),
        (AppError::NotFound, "not found", 404, "not found"),
        (AppError::BadRequest(text()), "bad request: x", 400, "x"),
        (AppError::Database(text()), "database error: x", 500, "internal server error"),
        (AppError::S3(text()), "s3 error: x", 500, "internal server error"),
        (
            AppError::Crypto(CryptoError::TooShort),
            "crypto error: ciphertext too short",
            500,
            "internal server error",
        ),
        (AppError::Compression(text()), "compression error: x", 500, "internal server error"),
        (AppError::Internal(text()), "internal error: x", 500, "internal server error"),
    ];
    for (error, wording, status, answer) in cases {
        assert_eq!(error.to_text(), wording);
        let reply = error.into_response();
        assert_eq!(reply.status, status);
        assert_eq!(reply.message, answer);
    }
}

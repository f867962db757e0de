use sourcemap_backend::mappings::javascript::map_file_name;
use sourcemap_backend::mappings::require_non_empty;
use sourcemap_backend::project::ProjectId;
use sourcemap_backend::routes::{
    normalize_proguard_entries, normalized_build_ids, parse_sourcemap_key,
    select_builds_for_cleanup, validate_project_sourcemap_key, ProguardEntry,
};
use sourcemap_backend::storage::StoredObjectMeta;

#[test]
fn map_file_name_adds_map_suffix_when_missing() {
    assert_eq!(map_file_name("app.js"), "app.js.map");
    assert_eq!(map_file_name("bundle.js.map"), "bundle.js.map");
}

#[test]
fn parse_sourcemap_key_extracts_build_and_file_name() {
    let parsed = parse_sourcemap_key("proj-id/build-42/chunk.js.map");
    assert_eq!(
        parsed,
        Some(("build-42".to_string(), "chunk.js.map".to_string()))
    );
}

#[test]
fn parse_sourcemap_key_keeps_nested_proguard_file_name() {
    let parsed = parse_sourcemap_key("proj-id/build-42/proguard/base.txt");
    assert_eq!(
        parsed,
        Some(("build-42".to_string(), "proguard/base.txt".to_string()))
    );
}

#[test]
fn validate_project_sourcemap_key_accepts_owned_key() {
    let project_id = ProjectId::parse_str("01954b9b-7b1d-72b8-8af3-f8d058f60b79").unwrap();
    let key = format!("{}/build-42/chunk.js.map", project_id.to_text());

    let validated = validate_project_sourcemap_key(project_id, &key).unwrap();

    assert_eq!(validated, key);
}

#[test]
fn validate_project_sourcemap_key_rejects_foreign_key() {
    let project_id = ProjectId::parse_str("01954b9b-7b1d-72b8-8af3-f8d058f60b79").unwrap();
    let foreign_project_id = ProjectId::parse_str("01954b9b-8228-7d29-9d18-c97b9fb3f924").unwrap();
    let key = format!("{}/build-42/chunk.js.map", foreign_project_id.to_text());

    let err = validate_project_sourcemap_key(project_id, &key).expect_err("key should fail");

    assert!(err.to_text().contains("invalid sourcemap key"));
}

#[test]
fn require_non_empty_rejects_whitespace() {
    let err = require_non_empty("build_id", "   ").expect_err("value should be invalid");
    assert!(err.to_text().contains("build_id is required"));
}

#[test]
fn normalized_build_ids_deduplicates_and_trims() {
    let normalized = normalized_build_ids(&[
        " build-1 ".to_string(),
        "build-1".to_string(),
        "".to_string(),
        "   ".to_string(),
        "build-2".to_string(),
    ]);
    assert_eq!(
        normalized,
        vec!["build-1".to_string(), "build-2".to_string()]
    );
}

#[test]
fn normalize_proguard_entries_accepts_multiple_named_files() {
    let normalized = normalize_proguard_entries(
        "build-1",
        "2026-03-22T00:00:00Z",
        &None,
        &None,
        &[ProguardEntry {
            file_name: "base.txt".to_string(),
            mapping: "one".to_string(),
        }],
        &[ProguardEntry {
            file_name: "feature.txt".to_string(),
            mapping: "two".to_string(),
        }],
    )
    .expect("entries should normalize");

    assert_eq!(
        normalized,
        vec![
            ("base.txt".to_string(), "one".to_string()),
            ("feature.txt".to_string(), "two".to_string()),
        ]
    );
}

#[test]
fn normalize_proguard_entries_keeps_legacy_single_mapping_compatible() {
    let normalized = normalize_proguard_entries(
        "build-1",
        "2026-03-22T00:00:00Z",
        &None,
        &Some("contents".to_string()),
        &[],
        &[],
    )
    .expect("legacy payload should normalize");

    assert_eq!(
        normalized,
        vec![("mapping.txt".to_string(), "contents".to_string())]
    );
}

#[test]
fn normalize_proguard_entries_rejects_mixed_unnamed_mapping() {
    let err = normalize_proguard_entries(
        "build-1",
        "2026-03-22T00:00:00Z",
        &None,
        &Some("contents".to_string()),
        &[ProguardEntry {
            file_name: "base.txt".to_string(),
            mapping: "one".to_string(),
        }],
        &[],
    )
    .expect_err("mixed unnamed mapping should be rejected");

    assert!(err.to_text().contains("file_name is required"));
}

#[test]
fn select_builds_for_cleanup_keeps_latest_and_excluded() {
    let objects = vec![
        StoredObjectMeta {
            key: "proj/build-001/app.js.map".to_string(),
            last_modified_epoch_seconds: Some(100),
            size_bytes: None,
        },
        StoredObjectMeta {
            key: "proj/build-002/app.js.map".to_string(),
            last_modified_epoch_seconds: Some(200),
            size_bytes: None,
        },
        StoredObjectMeta {
            key: "proj/build-003/app.js.map".to_string(),
            last_modified_epoch_seconds: Some(400),
            size_bytes: None,
        },
        StoredObjectMeta {
            key: "proj/build-004/app.js.map".to_string(),
            last_modified_epoch_seconds: Some(300),
            size_bytes: None,
        },
    ];
    let excluded = vec!["build-002".to_string()];
    let (latest, deleted) = select_builds_for_cleanup(&objects, &excluded);

    assert_eq!(latest, Some("build-003".to_string()));
    assert_eq!(
        deleted,
        vec!["build-001".to_string(), "build-004".to_string()]
    );
}

#[test]
fn select_builds_for_cleanup_handles_no_builds() {
    let (latest, deleted) = select_builds_for_cleanup(&[], &[]);
    assert_eq!(latest, None);
    assert!(deleted.is_empty());
}

#[test]
fn select_builds_for_cleanup_uses_latest_object_within_build() {
    let objects = vec![
        StoredObjectMeta {
            key: "proj/build-a/a.js.map".to_string(),
            last_modified_epoch_seconds: Some(100),
            size_bytes: None,
        },
        StoredObjectMeta {
            key: "proj/build-a/b.js.map".to_string(),
            last_modified_epoch_seconds: Some(500),
            size_bytes: None,
        },
        StoredObjectMeta {
            key: "proj/build-b/a.js.map".to_string(),
            last_modified_epoch_seconds: Some(400),
            size_bytes: None,
        },
    ];

    let (latest, deleted) = select_builds_for_cleanup(&objects, &[]);
    assert_eq!(latest, Some("build-a".to_string()));
    assert_eq!(deleted, vec!["build-b".to_string()]);
}

use sourcemap_backend::crypto::Crypto;
use sourcemap_backend::error::AppError;
use sourcemap_backend::mappings::javascript::{
    apply, apply_checked, ingest, invalid_source_map, map_file_name, position_of, SourceToken,
};
use sourcemap_backend::mappings::OriginalPosition;
use sourcemap_backend::project::ProjectId;
use sourcemap_backend::storage::{GetReply, Storage};

const MAP: &[u8] = br#"{"version":3,"sources":["coolstuff.js"],"names":["x","alert"],"mappings":"AAAA,GAAIA,GAAI,EACR,IAAIA,GAAK,EAAG,CACVC,MAAM"}"#;

fn applied(map: &[u8], line: u32, column: u32) -> Result<OriginalPosition, AppError> {
    apply_checked(map, "app.js", line, column).unwrap_or_else(|| panic!("a result is owed"))
}

fn token() -> SourceToken {
    SourceToken {
        dst_line: 0,
        dst_col: 0,
        source: Some("a.js".to_string()),
        src_line: 4,
        src_col: 6,
        name: Some("f".to_string()),
        is_range: false,
    }
}

#[test]
fn a_place_is_traced_to_the_closest_token_before_it() {
    let position = applied(MAP, 1, 4).unwrap();
    assert_eq!(position.source, "coolstuff.js");
    assert_eq!(position.line, 1);
    assert_eq!(position.column, 5);
    assert_eq!(position.name.as_deref(), Some("x"));
    let position = applied(MAP, 1, 6).unwrap();
    assert_eq!((position.line, position.column), (1, 5));
    let position = applied(MAP, 1, 9).unwrap();
    assert_eq!((position.line, position.column), (2, 1));
    assert_eq!(position.name, None);
    let position = applied(MAP, 9, 1).unwrap();
    assert_eq!(position.line, 3);
}

#[test]
fn places_count_from_one_and_zero_counts_as_one() {
    for (line, column) in [(0, 0), (0, 1), (1, 0), (1, 1)] {
        let position = applied(MAP, line, column).unwrap();
        assert_eq!((position.line, position.column), (1, 1));
        assert_eq!(position.name, None);
    }
}

#[test]
fn applying_with_and_without_the_test_agree() {
    let position = apply(MAP, "app.js", 1, 4).unwrap();
    assert_eq!((position.line, position.column), (1, 5));
}

#[test]
fn a_place_before_all_tokens_is_not_found() {
    let map = br#"{"version":3,"sources":["a.js"],"names":[],"mappings":"GAAA"}"#;
    assert!(matches!(applied(map, 1, 3), Err(AppError::NotFound)));
    assert!(applied(map, 1, 4).is_ok());
    let empty = br#"{"version":3,"sources":[],"names":[],"mappings":""}"#;
    assert!(matches!(applied(empty, 1, 1), Err(AppError::NotFound)));
}

#[test]
fn a_token_without_a_source_is_not_found() {
    let map = br#"{"version":3,"sources":["a.js"],"names":[],"mappings":"A"}"#;
    assert!(matches!(applied(map, 1, 1), Err(AppError::NotFound)));
}

#[test]
fn data_that_is_no_source_map_is_refused() {
    let text = applied(b"nope", 1, 1).unwrap_err().to_text();
    assert!(text.starts_with("bad request: invalid sourcemap: bad json: "));
    let index = br#"{"version":3,"sections":[]}"#;
    assert_eq!(
        applied(index, 1, 1).unwrap_err().to_text(),
        "bad request: invalid sourcemap: encountered incompatible sourcemap format"
    );
    assert_eq!(
        invalid_source_map("reason").to_text(),
        "bad request: invalid sourcemap: reason"
    );
}

#[test]
fn range_tokens_move_along() {
    let map =
        br#"{"version":3,"sources":["a.js"],"names":[],"mappings":"AAAA","rangeMappings":"B"}"#;
    let position = applied(map, 1, 5).unwrap();
    assert_eq!((position.line, position.column), (1, 5));
    let plain = br#"{"version":3,"sources":["a.js"],"names":[],"mappings":"AAAA"}"#;
    let position = applied(plain, 1, 5).unwrap();
    assert_eq!((position.line, position.column), (1, 1));
}

#[test]
fn range_tokens_are_not_moved_back() {
    let map =
        br#"{"version":3,"sources":["a.js"],"names":[],"mappings":"GAAA","rangeMappings":"B"}"#;
    assert!(apply_checked(map, "app.js", 2, 1).is_none());
    assert!(apply_checked(map, "app.js", 2, 4).is_some());
    let plain = br#"{"version":3,"sources":["a.js"],"names":[],"mappings":"GAAA"}"#;
    assert!(apply_checked(plain, "app.js", 2, 1).is_some());
}

#[test]
fn the_token_looked_up_decides_whether_it_is_moved_back() {
    for range_mappings in ["B", "C"] {
        let map = format!(
            r#"{{"version":3,"sources":["a.js"],"names":[],"mappings":"GAAA,AACA","rangeMappings":"{range_mappings}"}}"#
        );
        let parsed = sourcemap::SourceMap::from_slice(map.as_bytes()).unwrap();
        let tokens: Vec<(bool, u32)> = parsed
            .tokens()
            .map(|token| (token.is_range(), token.get_src_line() + 1))
            .collect();
        assert_eq!(tokens.len(), 2);
        assert_ne!(tokens[0].0, tokens[1].0);
        let (is_range, line) = tokens[1];
        match apply_checked(map.as_bytes(), "app.js", 2, 1) {
            Some(position) => {
                assert!(!is_range);
                assert_eq!(position.unwrap().line, line);
            }
            None => assert!(is_range),
        }
    }
}

#[test]
fn a_token_at_the_place_itself_is_the_first_of_several() {
    let map = br#"{"version":3,"sources":["a.js"],"names":[],"mappings":"AAAA,AACA,AACA"}"#;
    let position = applied(map, 1, 1).unwrap();
    assert!((1..=3).contains(&position.line));
    assert_eq!(position.column, 1);
}

#[test]
fn positions_count_from_one() {
    let position = position_of(Some(token())).unwrap();
    assert_eq!(position.source, "a.js");
    assert_eq!((position.line, position.column), (5, 7));
    assert_eq!(position.name.as_deref(), Some("f"));
    let mut last = token();
    last.src_line = u32::MAX - 1;
    last.src_col = u32::MAX - 1;
    let position = position_of(Some(last)).unwrap();
    assert_eq!((position.line, position.column), (u32::MAX, u32::MAX));
}

#[test]
fn unknown_positions_are_not_found() {
    assert!(matches!(position_of(None), Err(AppError::NotFound)));
    let mut no_source = token();
    no_source.source = None;
    assert!(matches!(position_of(Some(no_source)), Err(AppError::NotFound)));
    let mut no_line = token();
    no_line.src_line = u32::MAX;
    assert!(matches!(position_of(Some(no_line)), Err(AppError::NotFound)));
    let mut no_col = token();
    no_col.src_col = u32::MAX;
    assert!(matches!(position_of(Some(no_col)), Err(AppError::NotFound)));
}

#[test]
fn the_map_of_a_map_is_the_map() {
    assert_eq!(map_file_name(&map_file_name("app.js")), "app.js.map");
    assert_eq!(map_file_name(""), ".map");
    assert_eq!(map_file_name(".map"), ".map");
    assert_eq!(map_file_name("app.MAP"), "app.MAP.map");
}

#[test]
fn source_maps_are_stored_one_by_one() {
    let crypto = Crypto::new(&"33".repeat(32)).unwrap_or_else(|_| panic!("key"));
    let storage = Storage::new("maps".to_string(), crypto);
    let files = vec![
        ("a.js.map".to_string(), "one".to_string()),
        ("b.js.map".to_string(), "tw\u{f6}".to_string()),
    ];
    let id = ProjectId { value: 1 };
    for (done, (name, content)) in files.iter().enumerate() {
        let object = ingest(&storage, id, "build", &files, done)
            .unwrap_or_else(|_| panic!("ingest"))
            .unwrap_or_else(|| panic!("a file is left"));
        assert_eq!(object.key, format!("{}/build/{name}", id.to_text()));
        assert_eq!(
            storage.received(GetReply::Body(object.body)).unwrap(),
            content.as_bytes()
        );
    }
    assert!(matches!(ingest(&storage, id, "build", &files, 2), Ok(None)));
}

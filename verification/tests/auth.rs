use base64::engine::general_purpose::STANDARD;
use base64::Engine;

use sourcemap_backend::auth::{
    bearer_token, extract_prefix, header_value, verify_api_key, AdminAuthenticatedProject,
    AuthenticatedProject, StoredKey,
};
use sourcemap_backend::crypto::{Crypto, CryptoError};
use sourcemap_backend::error::AppError;
use sourcemap_backend::project::ProjectId;

const API_KEY: &str = "fsm_abcd1234ef";

fn crypto() -> Crypto {
    Crypto::new(&"22".repeat(32)).unwrap_or_else(|_| panic!("key"))
}

fn stored(api_key: &[u8]) -> String {
    STANDARD.encode(crypto().encrypt(api_key).unwrap())
}

#[test]
fn headers_must_be_there_and_be_text() {
    assert_eq!(header_value(Some(b"a b\t~")).unwrap(), "a b\t~");
    assert_eq!(header_value(Some(b"")).unwrap(), "");
    assert!(matches!(header_value(None), Err(AppError::Unauthorized)));
    assert!(matches!(header_value(Some(&[0x7f])), Err(AppError::Unauthorized)));
    assert!(matches!(
        header_value(Some("\u{e9}".as_bytes())),
        Err(AppError::Unauthorized)
    ));
    assert!(matches!(header_value(Some(b"a\n")), Err(AppError::Unauthorized)));
}

#[test]
fn tokens_stand_behind_bearer() {
    assert_eq!(bearer_token(Some(b"Bearer abc")).unwrap(), "abc");
    assert_eq!(bearer_token(Some(b"Bearer ")).unwrap(), "");
    assert!(matches!(
        bearer_token(Some(b"bearer abc")),
        Err(AppError::Unauthorized)
    ));
    assert!(matches!(bearer_token(Some(b"Bearer")), Err(AppError::Unauthorized)));
    assert!(matches!(bearer_token(None), Err(AppError::Unauthorized)));
}

#[test]
fn prefixes_are_twelve_bytes() {
    assert_eq!(extract_prefix(API_KEY), Some("fsm_abcd1234"));
    assert_eq!(extract_prefix("fsm_abcd1234"), Some("fsm_abcd1234"));
    assert_eq!(extract_prefix("fsm_abcd123"), None);
    assert_eq!(extract_prefix(""), None);
}

#[test]
fn a_stored_key_is_matched_by_itself_alone() {
    let stored = stored(API_KEY.as_bytes());
    assert!(verify_api_key(&crypto(), &stored, API_KEY).unwrap());
    assert!(!verify_api_key(&crypto(), &stored, "fsm_abcd1234ee").unwrap());
    assert!(!verify_api_key(&crypto(), &stored, "").unwrap());
}

#[test]
fn stored_keys_of_any_length_are_read() {
    for api_key in ["", "a", "ab", "abc", "abcd"] {
        let stored = stored(api_key.as_bytes());
        assert!(verify_api_key(&crypto(), &stored, api_key).unwrap());
    }
}

#[test]
fn stored_keys_must_be_base64() {
    for text in ["?", "QQ", "QQ=", "QR==", "QQ==\n"] {
        let err = verify_api_key(&crypto(), text, API_KEY).unwrap_err();
        assert_eq!(
            err.to_text(),
            "internal error: invalid base64 in encrypted_key"
        );
    }
}

#[test]
fn stored_keys_must_decrypt() {
    assert!(matches!(
        verify_api_key(&crypto(), "QQ==", API_KEY),
        Err(AppError::Crypto(CryptoError::TooShort))
    ));
    let garbage = STANDARD.encode([1u8; 40]);
    assert!(matches!(
        verify_api_key(&crypto(), &garbage, API_KEY),
        Err(AppError::Crypto(CryptoError::Aes))
    ));
}

#[test]
fn stored_keys_must_be_utf8() {
    let err = verify_api_key(&crypto(), &stored(&[0xff]), API_KEY).unwrap_err();
    assert_eq!(
        err.to_text(),
        "internal error: invalid utf-8 in decrypted key"
    );
}

#[test]
fn a_project_is_authenticated_by_its_key() {
    let header = format!("Bearer {API_KEY}");
    let lookup =
        AuthenticatedProject::begin(Some(header.as_bytes())).unwrap_or_else(|_| panic!("lookup"));
    assert_eq!(lookup.token, API_KEY);
    assert_eq!(lookup.prefix, "fsm_abcd1234");
    let found = StoredKey {
        project_id: ProjectId { value: 5 },
        encrypted_key: stored(API_KEY.as_bytes()),
    };
    let project = AuthenticatedProject::finish(&lookup, &crypto(), Some(found)).unwrap();
    assert_eq!(project.project_id, ProjectId { value: 5 });
}

#[test]
fn unknown_and_wrong_keys_are_refused() {
    let header = format!("Bearer {API_KEY}");
    let lookup =
        AuthenticatedProject::begin(Some(header.as_bytes())).unwrap_or_else(|_| panic!("lookup"));
    assert!(matches!(
        AuthenticatedProject::finish(&lookup, &crypto(), None),
        Err(AppError::Unauthorized)
    ));
    let found = StoredKey {
        project_id: ProjectId { value: 5 },
        encrypted_key: stored(b"fsm_abcd1234 other"),
    };
    assert!(matches!(
        AuthenticatedProject::finish(&lookup, &crypto(), Some(found)),
        Err(AppError::Unauthorized)
    ));
    let broken = StoredKey {
        project_id: ProjectId { value: 5 },
        encrypted_key: "?".to_string(),
    };
    assert!(matches!(
        AuthenticatedProject::finish(&lookup, &crypto(), Some(broken)),
        Err(AppError::Internal(_))
    ));
}

#[test]
fn short_tokens_are_refused_at_once() {
    assert!(matches!(
        AuthenticatedProject::begin(Some(b"Bearer fsm_abcd123")),
        Err(AppError::Unauthorized)
    ));
    assert!(matches!(
        AuthenticatedProject::begin(None),
        Err(AppError::Unauthorized)
    ));
}

#[test]
fn administrators_name_a_project() {
    let id = b"01954b9b-7b1d-72b8-8af3-f8d058f60b79";
    let project =
        AdminAuthenticatedProject::from_headers(Some(b"secret"), Some(id), "secret").unwrap();
    assert_eq!(
        project.project_id.to_text(),
        "01954b9b-7b1d-72b8-8af3-f8d058f60b79"
    );
}

#[test]
fn administrators_need_the_token_and_a_project() {
    let id: &[u8] = b"01954b9b-7b1d-72b8-8af3-f8d058f60b79";
    for (token, project) in [
        (Some(&b"wrong"[..]), Some(id)),
        (None, Some(id)),
        (Some(&b"secret"[..]), None),
        (Some(&b"secret"[..]), Some(&b"no id"[..])),
    ] {
        assert!(matches!(
            AdminAuthenticatedProject::from_headers(token, project, "secret"),
            Err(AppError::Unauthorized)
        ));
    }
}

#[test]
fn identifiers_are_read_in_all_their_forms() {
    let id = ProjectId {
        value: 0x01954b9b_7b1d_72b8_8af3_f8d058f60b79,
    };
    for text in [
        "01954b9b-7b1d-72b8-8af3-f8d058f60b79",
        "01954B9B-7B1D-72B8-8AF3-F8D058F60B79",
        "01954b9b7b1d72b88af3f8d058f60b79",
        "{01954b9b-7b1d-72b8-8af3-f8d058f60b79}",
        "URN:uuid:01954b9b-7b1d-72b8-8af3-f8d058f60b79",
    ] {
        assert_eq!(ProjectId::parse_str(text), Some(id));
    }
    assert_eq!(ProjectId::parse_str(&id.to_text()), Some(id));
    for text in [
        "",
        "01954b9b-7b1d-72b8-8af3-f8d058f60b7",
        "01954b9b-7b1d-72b8-8af3-f8d058f60b7g",
        "01954b9b7b1d-72b8-8af3-f8d058f60b79-",
        "{01954b9b7b1d72b88af3f8d058f60b79}",
        "01954b9b7b1d72b88af3f8d058f60b7\u{e9}",
    ] {
        assert_eq!(ProjectId::parse_str(text), None);
    }
}

#[test]
fn different_identifiers_have_different_texts() {
    let a = ProjectId { value: u128::MAX };
    let b = ProjectId { value: u128::MAX - 1 };
    assert_eq!(a.to_text(), "ffffffff-ffff-ffff-ffff-ffffffffffff");
    assert_ne!(a.to_text(), b.to_text());
    assert!(!a.to_text().contains('/'));
}

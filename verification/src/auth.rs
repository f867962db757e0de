//! Who may do what: API keys of projects, and the token of the administrator.

use base64::engine::general_purpose::STANDARD;
use base64::Engine;
use vstd::prelude::*;
use vstd::utf8::{
    decode_utf8, encode_utf8, encode_utf8_decode_utf8, encode_utf8_valid_utf8, is_ascii_chars,
    is_ascii_chars_encode_utf8, is_char_boundary, is_char_boundary_iff_is_leading_byte,
    is_char_boundary_start_end_of_seq, utf8_byte_ranges_bitwise, valid_utf8,
};

use crate::crypto::{decrypted, Crypto, CryptoError};
use crate::error::{AppError, ErrorView};
use crate::project::{law_text_writes_one_id, writes_uuid, ProjectId};
use crate::text::{chars_of, read_utf8, same_text, strip_prefix, strip_prefix_chars};

verus! {

// ---------------------------------------------------------------------------
// Base64
// ---------------------------------------------------------------------------

/// The character of a number below 64.
pub open spec fn base64_char(n: int) -> char {
    if n < 26 {
        ('A' as int + n) as char
    } else if n < 52 {
        ('a' as int + n - 26) as char
    } else if n < 62 {
        ('0' as int + n - 52) as char
    } else if n == 62 {
        '+'
    } else {
        '/'
    }
}

/// Bytes in Base64, with padding: four characters for each three bytes.
pub open spec fn base64_text(bytes: Seq<u8>) -> Seq<char>
    decreases bytes.len(),
{
    if bytes.len() == 0 {
        seq![]
    } else {
        let a = bytes[0] as int;
        let b = if bytes.len() > 1 {
            bytes[1] as int
        } else {
            0
        };
        let c = if bytes.len() > 2 {
            bytes[2] as int
        } else {
            0
        };
        let group = seq![
            base64_char(a / 4),
            base64_char((a % 4) * 16 + b / 16),
            if bytes.len() > 1 {
                base64_char((b % 16) * 4 + c / 64)
            } else {
                '='
            },
            if bytes.len() > 2 {
                base64_char(c % 64)
            } else {
                '='
            },
        ];
        if bytes.len() <= 3 {
            group
        } else {
            group + base64_text(bytes.skip(3))
        }
    }
}

/// The bytes that a text writes in Base64, if it writes any.
pub open spec fn base64_bytes(text: Seq<char>) -> Option<Seq<u8>> {
    if exists|bytes: Seq<u8>| text == base64_text(bytes) {
        Some(choose|bytes: Seq<u8>| text == base64_text(bytes))
    } else {
        None
    }
}

/// Reads Base64 with `base64::Engine::decode` of
/// `base64::engine::general_purpose::STANDARD`. It takes the one way in which
/// bytes are written, with all of the padding and no stray bits, and nothing
/// else.
#[verifier::external_body]
fn decode_base64(text: &str) -> (decoded: Option<Vec<u8>>)
    ensures
        forall|bytes: Seq<u8>| #[trigger]
            base64_text(bytes) == text@ <==> (decoded matches Some(d) && d@ == bytes),
{
    STANDARD.decode(text).ok()
}

/// Reads Base64.
fn read_base64(text: &str) -> (decoded: Option<Vec<u8>>)
    ensures
        match decoded {
            Some(bytes) => base64_bytes(text@) == Some(bytes@),
            None => base64_bytes(text@) is None,
        },
{
    let decoded = decode_base64(text);
    proof {
        match base64_bytes(text@) {
            Some(bytes) => {},
            None => {
                if decoded is Some {
                    assert(base64_text(decoded->0@) == text@);
                }
            },
        }
    }
    decoded
}

// ---------------------------------------------------------------------------
// Headers
// ---------------------------------------------------------------------------

pub const HEADER_AUTHORIZATION: &'static str = "authorization";

pub const HEADER_ADMIN_TOKEN: &'static str = "x-admin-token";

pub const HEADER_PROJECT_ID: &'static str = "x-project-id";

/// How many bytes of an API key find it.
pub const KEY_PREFIX_LEN: usize = 12;

/// A byte that the text of a header may have: visible ASCII, a space or a tab.
pub open spec fn is_header_byte(b: u8) -> bool {
    32 <= b < 127 || b == 9
}

/// The text of a header, if it is there and is text.
pub open spec fn header_text(value: Option<Seq<u8>>) -> Option<Seq<char>> {
    match value {
        Some(bytes) => if forall|i: int|
            0 <= i < bytes.len() ==> is_header_byte(#[trigger] bytes[i]) {
            Some(Seq::new(bytes.len(), |i: int| bytes[i] as char))
        } else {
            None
        },
        None => None,
    }
}

/// The bytes of a header are the text that they look like.
proof fn lemma_header_text(bytes: Seq<u8>)
    requires
        forall|i: int| 0 <= i < bytes.len() ==> is_header_byte(#[trigger] bytes[i]),
    ensures
        valid_utf8(bytes),
        decode_utf8(bytes) == Seq::new(bytes.len(), |i: int| bytes[i] as char),
        is_ascii_chars(decode_utf8(bytes)),
{
    let chars = Seq::new(bytes.len(), |i: int| bytes[i] as char);
    is_ascii_chars_encode_utf8(chars);
    assert(encode_utf8(chars) =~= bytes);
    encode_utf8_valid_utf8(chars);
    encode_utf8_decode_utf8(chars);
}

/// An ASCII text can be split anywhere, by characters as by bytes.
proof fn lemma_ascii_split(text: Seq<char>, n: int)
    requires
        is_ascii_chars(text),
        0 <= n <= text.len(),
    ensures
        is_char_boundary(encode_utf8(text), n),
        encode_utf8(text).len() == text.len(),
        encode_utf8(text.take(n)) == encode_utf8(text).subrange(0, n),
        encode_utf8(text.skip(n)) == encode_utf8(text).subrange(n, text.len() as int),
{
    let bytes = encode_utf8(text);
    is_ascii_chars_encode_utf8(text);
    encode_utf8_valid_utf8(text);
    is_ascii_chars_encode_utf8(text.take(n));
    is_ascii_chars_encode_utf8(text.skip(n));
    if n == text.len() {
        is_char_boundary_start_end_of_seq(bytes);
    } else {
        is_char_boundary_iff_is_leading_byte(bytes, n);
        utf8_byte_ranges_bitwise(bytes[n]);
    }
}

/// Texts with the same bytes are the same.
proof fn lemma_bytes_identify(a: Seq<char>, b: Seq<char>)
    requires
        encode_utf8(a) == encode_utf8(b),
    ensures
        a == b,
{
    encode_utf8_decode_utf8(a);
    encode_utf8_decode_utf8(b);
}

/// An optional value of bytes by what it holds.
pub open spec fn header_view(value: Option<&[u8]>) -> Option<Seq<u8>> {
    match value {
        Some(bytes) => Some(bytes@),
        None => None,
    }
}

/// The text of a header. Without it, access is refused.
pub fn header_value<'a>(value: Option<&'a [u8]>) -> (text: Result<&'a str, AppError>)
    ensures
        match text {
            Ok(text) => header_text(header_view(value)) == Some(text@) && is_ascii_chars(text@),
            Err(error) => header_text(header_view(value)) is None && error is Unauthorized,
        },
{
    let bytes = match value {
        Some(bytes) => bytes,
        None => {
            return Err(AppError::Unauthorized);
        },
    };
    let mut i: usize = 0;
    while i < bytes.len()
        invariant
            i <= bytes@.len(),
            header_view(value) == Some(bytes@),
            forall|k: int| 0 <= k < i ==> is_header_byte(#[trigger] bytes@[k]),
        decreases bytes@.len() - i,
    {
        let b: u8 = bytes[i];
        if !((32 <= b && b < 127) || b == 9) {
            return Err(AppError::Unauthorized);
        }
        i += 1;
    }
    proof {
        lemma_header_text(bytes@);
    }
    match read_utf8(bytes) {
        Ok(text) => Ok(text),
        Err(_) => Err(AppError::Unauthorized),
    }
}

/// The token behind `Bearer ` in a header.
pub open spec fn bearer(value: Option<Seq<u8>>) -> Option<Seq<char>> {
    match header_text(value) {
        Some(text) => strip_prefix(text, "Bearer "@),
        None => None,
    }
}

/// The token in the header for authorization. Without one, access is refused.
pub fn bearer_token<'a>(authorization: Option<&'a [u8]>) -> (token: Result<&'a str, AppError>)
    ensures
        match token {
            Ok(token) => bearer(header_view(authorization)) == Some(token@) && is_ascii_chars(
                token@,
            ),
            Err(error) => bearer(header_view(authorization)) is None && error is Unauthorized,
        },
{
    let text = match header_value(authorization) {
        Ok(text) => text,
        Err(error) => {
            return Err(error);
        },
    };
    if strip_prefix_chars(&chars_of(text), "Bearer ").is_none() {
        return Err(AppError::Unauthorized);
    }
    proof {
        reveal_strlit("Bearer ");
        lemma_ascii_split(text@, 7);
    }
    let (_, token) = text.split_at(7);
    proof {
        lemma_bytes_identify(token@, text@.skip(7));
    }
    Ok(token)
}

/// What of an API key finds it: its first bytes, if it has as many. Keys are
/// `fsm_` and hexadecimal digits, such as `fsm_abcd1234`.
pub fn extract_prefix<'a>(token: &'a str) -> (prefix: Option<&'a str>)
    requires
        encode_utf8(token@).len() >= KEY_PREFIX_LEN ==> is_char_boundary(
            encode_utf8(token@),
            KEY_PREFIX_LEN as int,
        ),
    ensures
        match prefix {
            Some(prefix) => encode_utf8(token@).len() >= KEY_PREFIX_LEN && encode_utf8(prefix@)
                == encode_utf8(token@).take(KEY_PREFIX_LEN as int),
            None => encode_utf8(token@).len() < KEY_PREFIX_LEN,
        },
{
    if token.as_bytes().len() < KEY_PREFIX_LEN {
        return None;
    }
    let (prefix, _) = token.split_at(KEY_PREFIX_LEN);
    Some(prefix)
}

// ---------------------------------------------------------------------------
// API keys
// ---------------------------------------------------------------------------

/// Whether a stored API key, encrypted and in Base64, is the one provided.
pub open spec fn key_matches(key: Seq<u8>, stored: Seq<char>, provided: Seq<char>) -> Result<
    bool,
    ErrorView,
> {
    match base64_bytes(stored) {
        None => Err(ErrorView::Internal("invalid base64 in encrypted_key"@)),
        Some(message) => match decrypted(key, message) {
            Err(error) => Err(ErrorView::Crypto(error)),
            Ok(bytes) => if valid_utf8(bytes) {
                Ok(decode_utf8(bytes) == provided)
            } else {
                Err(ErrorView::Internal("invalid utf-8 in decrypted key"@))
            },
        },
    }
}

/// A result of a test by what it holds.
pub open spec fn bool_result(result: Result<bool, AppError>) -> Result<bool, ErrorView> {
    match result {
        Ok(b) => Ok(b),
        Err(error) => Err(error@),
    }
}

/// Whether a stored API key is the one provided.
pub fn verify_api_key(crypto: &Crypto, encrypted_b64: &str, provided: &str) -> (verified: Result<
    bool,
    AppError,
>)
    ensures
        bool_result(verified) == key_matches(crypto@, encrypted_b64@, provided@),
{
    let message = match read_base64(encrypted_b64) {
        Some(message) => message,
        None => {
            return Err(AppError::Internal("invalid base64 in encrypted_key".to_owned()));
        },
    };
    let stored = match crypto.decrypt(message.as_slice()) {
        Ok(stored) => stored,
        Err(error) => {
            return Err(AppError::Crypto(error));
        },
    };
    match read_utf8(stored.as_slice()) {
        Ok(text) => Ok(same_text(text, provided)),
        Err(_) => Err(AppError::Internal("invalid utf-8 in decrypted key".to_owned())),
    }
}

proof fn lemma_base64_len(bytes: Seq<u8>)
    ensures
        base64_text(bytes).len() == 4 * ((bytes.len() + 2) / 3),
    decreases bytes.len(),
{
    if bytes.len() > 3 {
        lemma_base64_len(bytes.skip(3));
    }
}

/// No bytes share their Base64.
pub proof fn law_base64_injective(a: Seq<u8>, b: Seq<u8>)
    requires
        base64_text(a) == base64_text(b),
    ensures
        a == b,
    decreases a.len(),
{
    let (s, t) = (base64_text(a), base64_text(b));
    lemma_base64_len(b);
    if a.len() > 0 && b.len() > 0 {
        assert(s[0] == t[0] && s[1] == t[1] && s[2] == t[2] && s[3] == t[3]);
        if a.len() > 3 {
            assert(s.skip(4) =~= base64_text(a.skip(3)));
            assert(t.skip(4) =~= base64_text(b.skip(3)));
            law_base64_injective(a.skip(3), b.skip(3));
            assert forall|i: int| 0 <= i < a.len() implies a[i] == b[i] by {
                if i >= 3 {
                    assert(a.skip(3)[i - 3] == b.skip(3)[i - 3]);
                }
            }
        }
    }
}

/// An API key that was stored encrypted, in Base64, is matched by itself and
/// by no other.
pub proof fn law_stored_key_matches_itself_alone(
    key: Seq<u8>,
    message: Seq<u8>,
    api_key: Seq<char>,
    provided: Seq<char>,
)
    requires
        decrypted(key, message) == Ok::<_, CryptoError>(encode_utf8(api_key)),
    ensures
        key_matches(key, base64_text(message), provided) == Ok::<_, ErrorView>(
            provided == api_key,
        ),
{
    let stored = base64_text(message);
    law_base64_injective(base64_bytes(stored)->0, message);
    encode_utf8_valid_utf8(api_key);
    encode_utf8_decode_utf8(api_key);
}

// ---------------------------------------------------------------------------
// Requests
// ---------------------------------------------------------------------------

/// The project that an API key gives access to.
#[derive(Debug, Clone, Copy, PartialEq, Eq, Structural)]
pub struct AuthenticatedProject {
    pub project_id: ProjectId,
}

/// The project that an administrator works on.
#[derive(Debug, Clone, Copy, PartialEq, Eq, Structural)]
pub struct AdminAuthenticatedProject {
    pub project_id: ProjectId,
}

/// The API key of a request, before it is known to be one.
pub struct KeyLookup {
    /// The key as it was provided.
    pub token: String,
    /// What the stored key is looked up by.
    pub prefix: String,
}

/// A stored API key.
pub struct StoredKey {
    pub project_id: ProjectId,
    /// The key, encrypted, in Base64.
    pub encrypted_key: String,
}

/// What the key of a request is looked up by, if it can be one.
pub open spec fn key_prefix(authorization: Option<Seq<u8>>) -> Option<Seq<char>> {
    match bearer(authorization) {
        Some(token) => if token.len() >= KEY_PREFIX_LEN {
            Some(token.take(KEY_PREFIX_LEN as int))
        } else {
            None
        },
        None => None,
    }
}

/// The access that a stored key gives to who provides a token.
pub open spec fn access(
    key: Seq<u8>,
    stored: Option<(ProjectId, Seq<char>)>,
    token: Seq<char>,
) -> Result<ProjectId, ErrorView> {
    match stored {
        None => Err(ErrorView::Unauthorized),
        Some((project_id, encrypted_key)) => match key_matches(key, encrypted_key, token) {
            Err(error) => Err(error),
            Ok(matches) => if matches {
                Ok(project_id)
            } else {
                Err(ErrorView::Unauthorized)
            },
        },
    }
}

/// A stored key by what it holds.
pub open spec fn stored_view(stored: Option<StoredKey>) -> Option<(ProjectId, Seq<char>)> {
    match stored {
        Some(stored) => Some((stored.project_id, stored.encrypted_key@)),
        None => None,
    }
}

impl AuthenticatedProject {
    /// Takes the API key out of the header for authorization, and finds what
    /// it is looked up by.
    pub fn begin(authorization: Option<&[u8]>) -> (lookup: Result<KeyLookup, AppError>)
        ensures
            match lookup {
                Ok(lookup) => bearer(header_view(authorization)) == Some(lookup.token@)
                    && key_prefix(header_view(authorization)) == Some(lookup.prefix@),
                Err(error) => key_prefix(header_view(authorization)) is None
                    && error is Unauthorized,
            },
    {
        let token = match bearer_token(authorization) {
            Ok(token) => token,
            Err(error) => {
                return Err(error);
            },
        };
        proof {
            is_ascii_chars_encode_utf8(token@);
            if token@.len() >= KEY_PREFIX_LEN {
                lemma_ascii_split(token@, KEY_PREFIX_LEN as int);
            }
        }
        match extract_prefix(token) {
            Some(prefix) => {
                proof {
                    lemma_bytes_identify(prefix@, token@.take(KEY_PREFIX_LEN as int));
                }
                Ok(KeyLookup { token: token.to_owned(), prefix: prefix.to_owned() })
            },
            None => Err(AppError::Unauthorized),
        }
    }

    /// Holds the token against the stored key that was found for it, if any.
    pub fn finish(
        lookup: &KeyLookup,
        crypto: &Crypto,
        stored: Option<StoredKey>,
    ) -> (project: Result<AuthenticatedProject, AppError>)
        ensures
            match access(crypto@, stored_view(stored), lookup.token@) {
                Ok(project_id) => project matches Ok(project) && project.project_id == project_id,
                Err(error) => project matches Err(e) && e@ == error,
            },
    {
        match stored {
            Some(stored) => match verify_api_key(
                crypto,
                stored.encrypted_key.as_str(),
                lookup.token.as_str(),
            ) {
                Ok(matches) => if matches {
                    Ok(AuthenticatedProject { project_id: stored.project_id })
                } else {
                    Err(AppError::Unauthorized)
                },
                Err(error) => Err(error),
            },
            None => Err(AppError::Unauthorized),
        }
    }
}

/// The project that an administrator names, if they provide the right token.
pub open spec fn admin_access(
    admin_token: Option<Seq<char>>,
    project: Option<Seq<char>>,
    expected: Seq<char>,
) -> Option<ProjectId> {
    match (admin_token, project) {
        (Some(token), Some(project)) => if token == expected {
            ProjectId::parsed(project)
        } else {
            None
        },
        _ => None,
    }
}

impl AdminAuthenticatedProject {
    /// Checks the token of the administrator, and reads which project they
    /// work on.
    pub fn from_headers(
        admin_token: Option<&[u8]>,
        project_id: Option<&[u8]>,
        expected_token: &str,
    ) -> (project: Result<AdminAuthenticatedProject, AppError>)
        ensures
            match admin_access(
                header_text(header_view(admin_token)),
                header_text(header_view(project_id)),
                expected_token@,
            ) {
                Some(id) => project matches Ok(project) && project.project_id == id,
                None => project matches Err(error) && error is Unauthorized,
            },
    {
        let token = match header_value(admin_token) {
            Ok(token) => token,
            Err(error) => {
                return Err(error);
            },
        };
        if !same_text(token, expected_token) {
            return Err(AppError::Unauthorized);
        }
        let project = match header_value(project_id) {
            Ok(project) => project,
            Err(error) => {
                return Err(error);
            },
        };
        match ProjectId::parse_str(project) {
            Some(project_id) => Ok(AdminAuthenticatedProject { project_id }),
            None => Err(AppError::Unauthorized),
        }
    }
}

// ---------------------------------------------------------------------------
// Laws
// ---------------------------------------------------------------------------

/// A header is text where it is there and has nothing but visible ASCII, spaces and
/// tabs in it; each byte is one character.
pub proof fn law_header_text_is_its_bytes(value: Option<Seq<u8>>)
    ensures
        match header_text(value) {
            Some(text) => value matches Some(bytes) && text.len() == bytes.len() && forall|i: int|
                0 <= i < bytes.len() ==> #[trigger] text[i] as int == bytes[i] as int && (bytes[i]
                    == 9 || 32 <= bytes[i] && bytes[i] <= 126),
            None => value matches Some(bytes) ==> exists|i: int|
                0 <= i < bytes.len() && #[trigger] bytes[i] != 9 && (bytes[i] < 32 || bytes[i]
                    > 126),
        },
{
    match value {
        Some(bytes) => {
            if header_text(value) is None {
                let i = choose|i: int| 0 <= i < bytes.len() && !is_header_byte(#[trigger] bytes[i]);
                assert(bytes[i] != 9);
            } else {
                assert forall|i: int| 0 <= i < bytes.len() implies #[trigger] header_text(
                    value,
                )->0[i] as int == bytes[i] as int && (bytes[i] == 9 || 32 <= bytes[i] && bytes[i]
                    <= 126) by {
                    assert(is_header_byte(bytes[i]));
                }
            }
        },
        None => {},
    }
}

/// The token of a request is what stands behind `Bearer `, all of it; a header that
/// does not start so has none.
pub proof fn law_token_stands_behind_bearer(value: Option<Seq<u8>>, token: Seq<char>)
    ensures
        bearer(value) == Some(token) <==> header_text(value) == Some("Bearer "@ + token),
{
    if let Some(text) = header_text(value) {
        let prefix = "Bearer "@;
        if prefix.is_prefix_of(text) {
            assert(text =~= prefix + text.skip(prefix.len() as int));
        }
        if text == prefix + token {
            assert(text.subrange(0, prefix.len() as int) =~= prefix);
            assert(text.skip(prefix.len() as int) =~= token);
        }
    }
}

/// A key is looked up by its first twelve characters; one with fewer is none.
pub proof fn law_key_is_looked_up_by_twelve_characters(value: Option<Seq<u8>>)
    ensures
        match bearer(value) {
            Some(token) => if token.len() < 12 {
                key_prefix(value) is None
            } else {
                key_prefix(value) matches Some(prefix) && prefix.len() == 12 && forall|i: int|
                    0 <= i < 12 ==> prefix[i] == #[trigger] token[i]
            },
            None => key_prefix(value) is None,
        },
{
}

/// Who provides a token has access to a project exactly where a key is stored for
/// it that decrypts to that very token. Without a stored key, and with another
/// token, access is refused; a stored key that cannot be read is a failure.
pub proof fn law_access_takes_the_stored_key(
    key: Seq<u8>,
    stored: Option<(ProjectId, Seq<char>)>,
    token: Seq<char>,
    project: ProjectId,
)
    ensures
        access(key, stored, token) == Ok::<_, ErrorView>(project) <==> {
            &&& stored matches Some((id, encrypted))
            &&& id == project
            &&& base64_bytes(encrypted) matches Some(message)
            &&& decrypted(key, message) matches Ok(bytes)
            &&& valid_utf8(bytes)
            &&& decode_utf8(bytes) == token
        },
        stored is None ==> access(key, stored, token) == Err::<ProjectId, _>(
            ErrorView::Unauthorized,
        ),
        stored matches Some((_, encrypted)) ==> match base64_bytes(encrypted) {
            None => access(key, stored, token) == Err::<ProjectId, _>(
                ErrorView::Internal("invalid base64 in encrypted_key"@),
            ),
            Some(message) => match decrypted(key, message) {
                Err(error) => access(key, stored, token) == Err::<ProjectId, _>(
                    ErrorView::Crypto(error),
                ),
                Ok(bytes) => if !valid_utf8(bytes) {
                    access(key, stored, token) == Err::<ProjectId, _>(
                        ErrorView::Internal("invalid utf-8 in decrypted key"@),
                    )
                } else {
                    decode_utf8(bytes) != token ==> access(key, stored, token) == Err::<
                        ProjectId,
                        _,
                    >(ErrorView::Unauthorized)
                },
            },
        },
{
}

/// An administrator works on a project exactly where the token is the expected one
/// and the project is named by its identifier.
pub proof fn law_administrator_has_the_token(
    admin_token: Option<Seq<char>>,
    project: Option<Seq<char>>,
    expected: Seq<char>,
    id: ProjectId,
)
    ensures
        admin_access(admin_token, project, expected) == Some(id) <==> admin_token == Some(expected)
            && (project matches Some(text) && writes_uuid(text, id.value)),
{
    if let Some(text) = project {
        if writes_uuid(text, id.value) {
            let chosen = choose|value: u128| writes_uuid(text, value);
            law_text_writes_one_id(text, id.value, chosen);
        }
    }
}

} // verus!

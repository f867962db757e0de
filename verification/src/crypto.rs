//! Encryption of what is stored and of the API keys, with AES-256-GCM.
//!
//! On the wire a message is nonce, tag and ciphertext, in this order. The
//! cipher itself gives ciphertext and tag the other way round.

use aes_gcm::aead::Aead;
use aes_gcm::{Aes256Gcm, Key, KeyInit, Nonce};
use rand::Rng;
use vstd::prelude::*;

use crate::hexadecimal::{hex_bytes, hex_value, is_hex_digit};

verus! {

pub const KEY_LEN: usize = 32;

pub const NONCE_LEN: usize = 12;

pub const TAG_LEN: usize = 16;

/// The longest message that the cipher takes, in bytes.
pub const MAX_PLAINTEXT_LEN: u64 = 68_719_476_736;

// ---------------------------------------------------------------------------
// The cipher, the random source and the key's text
// ---------------------------------------------------------------------------

/// The opaque error of the cipher.
#[verifier::external_type_specification]
#[verifier::external_body]
pub struct ExAeadError(aes_gcm::Error);

/// What AES-256-GCM makes of a message, without associated data: ciphertext
/// and tag. There is nothing where the message is too long for the cipher.
pub uninterp spec fn aes256_gcm_sealed(key: Seq<u8>, nonce: Seq<u8>, plaintext: Seq<u8>) -> Option<
    Seq<u8>,
>;

/// The message that AES-256-GCM finds in ciphertext and tag, without
/// associated data. There is nothing where the tag does not fit.
pub uninterp spec fn aes256_gcm_opened(key: Seq<u8>, nonce: Seq<u8>, sealed: Seq<u8>) -> Option<
    Seq<u8>,
>;

/// Encrypts with `Aead::encrypt` of `aes_gcm::Aes256Gcm`. It fails on messages
/// over the cipher's limit and on no other, adds sixteen bytes, and what it
/// gives opens to the message again. That memory for the result can be had is
/// taken for granted.
#[verifier::external_body]
fn seal(key: &[u8], nonce: &[u8], plaintext: &[u8]) -> (sealed: Result<Vec<u8>, aes_gcm::Error>)
    requires
        key@.len() == KEY_LEN,
        nonce@.len() == NONCE_LEN,
    ensures
        sealed is Ok <==> plaintext@.len() <= MAX_PLAINTEXT_LEN,
        sealed is Err <==> aes256_gcm_sealed(key@, nonce@, plaintext@) is None,
        sealed matches Ok(bytes) ==> aes256_gcm_sealed(key@, nonce@, plaintext@) == Some(bytes@),
        sealed matches Ok(bytes) ==> bytes@.len() == plaintext@.len() + TAG_LEN,
        sealed matches Ok(bytes) ==> aes256_gcm_opened(key@, nonce@, bytes@) == Some(plaintext@),
{
    let cipher = Aes256Gcm::new(Key::<Aes256Gcm>::from_slice(key));
    cipher.encrypt(Nonce::from_slice(nonce), plaintext)
}

/// Decrypts with `Aead::decrypt` of `aes_gcm::Aes256Gcm`. The message is
/// sixteen bytes shorter than what was sealed, and sealing it again, where it
/// is within the cipher's limit, gives the same bytes: the tag is checked in
/// full. That memory for the result can be had is taken for granted.
#[verifier::external_body]
fn open(key: &[u8], nonce: &[u8], sealed: &[u8]) -> (opened: Result<Vec<u8>, aes_gcm::Error>)
    requires
        key@.len() == KEY_LEN,
        nonce@.len() == NONCE_LEN,
    ensures
        opened is Err <==> aes256_gcm_opened(key@, nonce@, sealed@) is None,
        opened matches Ok(bytes) ==> aes256_gcm_opened(key@, nonce@, sealed@) == Some(bytes@),
        opened matches Ok(bytes) ==> bytes@.len() + TAG_LEN == sealed@.len(),
        opened matches Ok(bytes) ==> bytes@.len() <= MAX_PLAINTEXT_LEN ==> aes256_gcm_sealed(
            key@,
            nonce@,
            bytes@,
        ) == Some(sealed@),
{
    let cipher = Aes256Gcm::new(Key::<Aes256Gcm>::from_slice(key));
    cipher.decrypt(Nonce::from_slice(nonce), sealed)
}

/// Twelve bytes of `rand::rng`, with `fill_bytes`. Nothing can be said of them
/// beforehand; that the system gives random bytes is taken for granted.
#[verifier::external_body]
pub(crate) fn random_nonce() -> (nonce: [u8; 12]) {
    let mut nonce = [0u8; 12];
    rand::rng().fill_bytes(&mut nonce);
    nonce
}

/// Reads digit pairs with `hex::decode`, which takes an even number of digits
/// of either case and nothing else.
#[verifier::external_body]
fn decode_hex(text: &str) -> (decoded: Option<Vec<u8>>)
    ensures
        decoded is None <==> hex_bytes(text@) is None,
        decoded matches Some(bytes) ==> hex_bytes(text@) == Some(bytes@),
{
    hex::decode(text).ok()
}

// ---------------------------------------------------------------------------
// Errors
// ---------------------------------------------------------------------------

/// Why a message could not be encrypted or decrypted.
#[derive(Debug, Clone, Copy, PartialEq, Eq, Structural)]
pub enum CryptoError {
    InvalidKey,
    TooShort,
    Aes,
}

impl CryptoError {
    /// The wording of the error.
    pub open spec fn text(self) -> Seq<char> {
        match self {
            CryptoError::InvalidKey => "invalid encryption key (must be 64 hex chars / 32 bytes)"@,
            CryptoError::TooShort => "ciphertext too short"@,
            CryptoError::Aes => "AES-GCM error: aead::Error"@,
        }
    }

    /// The wording of the error.
    pub fn to_text(&self) -> (text: String)
        ensures
            text@ == self.text(),
    {
        match self {
            CryptoError::InvalidKey => {
                "invalid encryption key (must be 64 hex chars / 32 bytes)".to_owned()
            },
            CryptoError::TooShort => "ciphertext too short".to_owned(),
            CryptoError::Aes => "AES-GCM error: aead::Error".to_owned(),
        }
    }
}

// ---------------------------------------------------------------------------
// Messages on the wire
// ---------------------------------------------------------------------------

/// The key that a text of 64 digits stands for.
pub open spec fn parsed_key(hex_key: Seq<char>) -> Option<Seq<u8>> {
    match hex_bytes(hex_key) {
        Some(bytes) => if bytes.len() == KEY_LEN {
            Some(bytes)
        } else {
            None
        },
        None => None,
    }
}

/// A sealed message as it goes on the wire: nonce, tag, ciphertext.
pub open spec fn wire_form(nonce: Seq<u8>, sealed: Seq<u8>) -> Seq<u8> {
    let split = sealed.len() - TAG_LEN;
    nonce + sealed.skip(split) + sealed.take(split)
}

/// What a message is encrypted to under a key and a nonce.
pub open spec fn encrypted(key: Seq<u8>, nonce: Seq<u8>, plaintext: Seq<u8>) -> Result<
    Seq<u8>,
    CryptoError,
> {
    match aes256_gcm_sealed(key, nonce, plaintext) {
        Some(sealed) => Ok(wire_form(nonce, sealed)),
        None => Err(CryptoError::Aes),
    }
}

/// Sealing a message puts the tag behind a ciphertext of the message's length.
pub open spec fn seals_with_tag(key: Seq<u8>, nonce: Seq<u8>, plaintext: Seq<u8>) -> bool {
    aes256_gcm_sealed(key, nonce, plaintext) matches Some(sealed) ==> sealed.len()
        == plaintext.len() + TAG_LEN
}

/// What bytes from the wire decrypt to under a key.
pub open spec fn decrypted(key: Seq<u8>, data: Seq<u8>) -> Result<Seq<u8>, CryptoError> {
    if data.len() < NONCE_LEN + TAG_LEN {
        Err(CryptoError::TooShort)
    } else {
        let nonce = data.take(NONCE_LEN as int);
        let tag = data.subrange(NONCE_LEN as int, NONCE_LEN + TAG_LEN);
        let ciphertext = data.skip(NONCE_LEN + TAG_LEN);
        match aes256_gcm_opened(key, nonce, ciphertext + tag) {
            Some(plaintext) => Ok(plaintext),
            None => Err(CryptoError::Aes),
        }
    }
}

/// A result of bytes by what it holds.
pub open spec fn bytes_view(result: Result<Vec<u8>, CryptoError>) -> Result<Seq<u8>, CryptoError> {
    match result {
        Ok(bytes) => Ok(bytes@),
        Err(error) => Err(error),
    }
}

/// Encrypts and decrypts under one key.
pub struct Crypto {
    key: Vec<u8>,
}

impl View for Crypto {
    type V = Seq<u8>;

    /// The bytes of the key.
    closed spec fn view(&self) -> Seq<u8> {
        self.key@
    }
}

impl Clone for Crypto {
    fn clone(&self) -> (copy: Self)
        ensures
            copy@ == self@,
    {
        proof {
            use_type_invariant(self);
        }
        Crypto { key: self.key.clone() }
    }
}

impl Crypto {
    #[verifier::type_invariant]
    spec fn has_full_key(self) -> bool {
        self.key@.len() == KEY_LEN
    }

    /// Takes a key of 64 hexadecimal digits.
    pub fn new(hex_key: &str) -> (crypto: Result<Crypto, CryptoError>)
        ensures
            match crypto {
                Ok(crypto) => parsed_key(hex_key@) == Some(crypto@),
                Err(error) => parsed_key(hex_key@) is None && error == CryptoError::InvalidKey,
            },
    {
        match decode_hex(hex_key) {
            Some(key) => {
                if key.len() != KEY_LEN {
                    return Err(CryptoError::InvalidKey);
                }
                Ok(Crypto { key })
            },
            None => Err(CryptoError::InvalidKey),
        }
    }

    /// Encrypts a message under a nonce of the caller's choice. What comes out
    /// decrypts to the message.
    pub fn encrypt_with_nonce(&self, nonce: &[u8; 12], plaintext: &[u8]) -> (message: Result<
        Vec<u8>,
        CryptoError,
    >)
        ensures
            bytes_view(message) == encrypted(self@, nonce@, plaintext@),
            seals_with_tag(self@, nonce@, plaintext@),
            message is Ok <==> plaintext@.len() <= MAX_PLAINTEXT_LEN,
            message matches Ok(message) ==> decrypted(self@, message@) == Ok::<_, CryptoError>(
                plaintext@,
            ),
            message matches Ok(message) ==> message@.len() == NONCE_LEN + TAG_LEN
                + plaintext@.len(),
    {
        proof {
            use_type_invariant(self);
        }
        let sealed = match seal(self.key.as_slice(), nonce.as_slice(), plaintext) {
            Ok(sealed) => sealed,
            Err(_) => {
                return Err(CryptoError::Aes);
            },
        };
        let split: usize = sealed.len() - TAG_LEN;
        let (ciphertext, tag) = sealed.as_slice().split_at(split);
        let mut message: Vec<u8> = Vec::new();
        message.extend_from_slice(nonce.as_slice());
        message.extend_from_slice(tag);
        message.extend_from_slice(ciphertext);
        assert(message@ =~= wire_form(nonce@, sealed@));
        assert(message@.take(NONCE_LEN as int) =~= nonce@);
        assert(message@.skip(NONCE_LEN + TAG_LEN) + message@.subrange(
            NONCE_LEN as int,
            NONCE_LEN + TAG_LEN,
        ) =~= sealed@);
        Ok(message)
    }

    /// Encrypts a message under a random nonce. Whichever it is, what comes out
    /// decrypts to the message.
    pub fn encrypt(&self, plaintext: &[u8]) -> (message: Result<Vec<u8>, CryptoError>)
        ensures
            exists|nonce: Seq<u8>|
                nonce.len() == NONCE_LEN && bytes_view(message) == #[trigger] encrypted(
                    self@,
                    nonce,
                    plaintext@,
                ) && seals_with_tag(self@, nonce, plaintext@),
            message is Ok <==> plaintext@.len() <= MAX_PLAINTEXT_LEN,
            message matches Ok(message) ==> decrypted(self@, message@) == Ok::<_, CryptoError>(
                plaintext@,
            ),
            message matches Ok(message) ==> message@.len() == NONCE_LEN + TAG_LEN
                + plaintext@.len(),
    {
        let nonce = random_nonce();
        self.encrypt_with_nonce(&nonce, plaintext)
    }

    /// Decrypts a message. What decrypts was encrypted under the same key, with
    /// the nonce that it starts with.
    pub fn decrypt(&self, data: &[u8]) -> (plaintext: Result<Vec<u8>, CryptoError>)
        ensures
            bytes_view(plaintext) == decrypted(self@, data@),
            plaintext matches Ok(plaintext) ==> plaintext@.len() <= MAX_PLAINTEXT_LEN ==> encrypted(
                self@,
                data@.take(NONCE_LEN as int),
                plaintext@,
            ) == Ok::<_, CryptoError>(data@),
            plaintext matches Ok(plaintext) ==> data@.len() == NONCE_LEN + TAG_LEN
                + plaintext@.len(),
    {
        proof {
            use_type_invariant(self);
        }
        if data.len() < NONCE_LEN + TAG_LEN {
            return Err(CryptoError::TooShort);
        }
        let (nonce, rest) = data.split_at(NONCE_LEN);
        let (tag, ciphertext) = rest.split_at(TAG_LEN);
        let mut sealed: Vec<u8> = Vec::new();
        sealed.extend_from_slice(ciphertext);
        sealed.extend_from_slice(tag);
        assert(sealed@ =~= data@.skip(NONCE_LEN + TAG_LEN) + data@.subrange(
            NONCE_LEN as int,
            NONCE_LEN + TAG_LEN,
        ));
        assert(wire_form(nonce@, sealed@) =~= data@);
        match open(self.key.as_slice(), nonce, sealed.as_slice()) {
            Ok(plaintext) => Ok(plaintext),
            Err(_) => Err(CryptoError::Aes),
        }
    }
}

// ---------------------------------------------------------------------------
// Laws
// ---------------------------------------------------------------------------

/// A message on the wire is the nonce, then the tag, then the ciphertext: twelve
/// bytes, sixteen bytes, and the rest. Sealed, the tag stands behind the ciphertext.
pub proof fn law_message_is_nonce_tag_and_ciphertext(
    key: Seq<u8>,
    nonce: Seq<u8>,
    tag: Seq<u8>,
    ciphertext: Seq<u8>,
    plaintext: Seq<u8>,
)
    requires
        nonce.len() == 12,
        tag.len() == 16,
    ensures
        aes256_gcm_opened(key, nonce, ciphertext + tag) == Some(plaintext) ==> decrypted(
            key,
            nonce + tag + ciphertext,
        ) == Ok::<_, CryptoError>(plaintext),
        aes256_gcm_opened(key, nonce, ciphertext + tag) is None ==> decrypted(
            key,
            nonce + tag + ciphertext,
        ) == Err::<Seq<u8>, _>(CryptoError::Aes),
        aes256_gcm_sealed(key, nonce, plaintext) == Some(ciphertext + tag) ==> encrypted(
            key,
            nonce,
            plaintext,
        ) == Ok::<_, CryptoError>(nonce + tag + ciphertext),
        aes256_gcm_sealed(key, nonce, plaintext) is None ==> encrypted(key, nonce, plaintext)
            == Err::<Seq<u8>, _>(CryptoError::Aes),
{
    let data = nonce + tag + ciphertext;
    assert(data.take(12) =~= nonce);
    assert(data.subrange(12, 28) =~= tag);
    assert(data.skip(28) =~= ciphertext);
    let sealed = ciphertext + tag;
    assert(sealed.skip(sealed.len() - 16) =~= tag);
    assert(sealed.take(sealed.len() - 16) =~= ciphertext);
}

/// What is shorter than a nonce and a tag is no message.
pub proof fn law_short_messages_are_refused(key: Seq<u8>, data: Seq<u8>)
    ensures
        decrypted(key, data) == Err::<Seq<u8>, _>(CryptoError::TooShort) <==> data.len() < 28,
{
}

/// A key is written by 64 hexadecimal digits, in either case, and by nothing else:
/// two for each of its bytes, the first for its upper half.
pub proof fn law_key_is_written_by_64_digits(text: Seq<char>)
    ensures
        match parsed_key(text) {
            Some(key) => {
                &&& text.len() == 64
                &&& key.len() == 32
                &&& forall|i: int|
                    0 <= i < 32 ==> #[trigger] key[i] == 16 * hex_value(text[2 * i]) + hex_value(
                        text[2 * i + 1],
                    ) && is_hex_digit(text[2 * i]) && is_hex_digit(text[2 * i + 1])
            },
            None => text.len() != 64 || exists|i: int|
                0 <= i < text.len() && !is_hex_digit(#[trigger] text[i]),
        },
{
    match parsed_key(text) {
        Some(key) => {
            assert forall|i: int| 0 <= i < 32 implies #[trigger] key[i] == 16 * hex_value(
                text[2 * i],
            ) + hex_value(text[2 * i + 1]) && is_hex_digit(text[2 * i]) && is_hex_digit(
                text[2 * i + 1],
            ) by {
                let (a, b) = (hex_value(text[2 * i]), hex_value(text[2 * i + 1]));
                assert(is_hex_digit(text[2 * i]) && is_hex_digit(text[2 * i + 1]));
                assert(a < 16 && b < 16);
            }
        },
        None => {},
    }
}

} // verus!

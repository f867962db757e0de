//! Projects and the identifiers that name them.

use vstd::prelude::*;

use crate::hexadecimal::{
    hex_text, is_hex_digit, lemma_hex_text_injective, lemma_hex_text_shape, pow16,
};

verus! {

/// The UUID of a project, as a number.
#[derive(Debug, Clone, Copy, PartialEq, Eq, Structural)]
pub struct ProjectId {
    pub value: u128,
}

/// The 32 digits of a UUID.
pub open spec fn uuid_digits(value: u128) -> Seq<char> {
    hex_text(value as nat, 32)
}

/// A UUID in its usual form: its digits in five groups with hyphens between.
pub open spec fn uuid_text(value: u128) -> Seq<char> {
    let digits = uuid_digits(value);
    digits.subrange(0, 8) + seq!['-'] + digits.subrange(8, 12) + seq!['-'] + digits.subrange(12, 16)
        + seq!['-'] + digits.subrange(16, 20) + seq!['-'] + digits.subrange(20, 32)
}

/// A text with its ASCII capitals in lower case.
pub open spec fn ascii_lower(text: Seq<char>) -> Seq<char> {
    text.map_values(
        |c: char|
            if 'A' <= c <= 'Z' {
                (c as int + 32) as char
            } else {
                c
            },
    )
}

/// A text writes a UUID: as bare digits, in the usual form, in braces, or as a
/// URN, with letters of either case.
pub open spec fn writes_uuid(text: Seq<char>, value: u128) -> bool {
    let lower = ascii_lower(text);
    ||| lower == uuid_digits(value)
    ||| lower == uuid_text(value)
    ||| lower == seq!['{'] + uuid_text(value) + seq!['}']
    ||| lower == "urn:uuid:"@ + uuid_text(value)
}

/// Writes a UUID with the `Display` of `uuid::Uuid`, which gives the usual
/// form in lower case.
#[verifier::external_body]
fn format_uuid(value: u128) -> (text: String)
    ensures
        text@ == uuid_text(value),
{
    uuid::Uuid::from_u128(value).to_string()
}

/// Reads a UUID with `uuid::Uuid::parse_str`, which takes the four forms of
/// [`writes_uuid`] and no other text.
#[verifier::external_body]
fn parse_uuid(text: &str) -> (found: Option<u128>)
    ensures
        forall|value: u128| found == Some(value) <==> #[trigger] writes_uuid(text@, value),
{
    uuid::Uuid::parse_str(text).ok().map(|id| id.as_u128())
}

impl ProjectId {
    /// The identifier as text.
    pub open spec fn text(self) -> Seq<char> {
        uuid_text(self.value)
    }

    /// The identifier that a text writes, if it writes one.
    pub open spec fn parsed(text: Seq<char>) -> Option<ProjectId> {
        if exists|value: u128| writes_uuid(text, value) {
            Some(ProjectId { value: choose|value: u128| writes_uuid(text, value) })
        } else {
            None
        }
    }

    pub fn to_text(&self) -> (text: String)
        ensures
            text@ == self.text(),
    {
        format_uuid(self.value)
    }

    pub fn parse_str(text: &str) -> (id: Option<ProjectId>)
        ensures
            id == ProjectId::parsed(text@),
            id matches Some(id) ==> writes_uuid(text@, id.value),
            id is None ==> forall|value: u128| !#[trigger] writes_uuid(text@, value),
    {
        match parse_uuid(text) {
            Some(value) => {
                proof {
                    let chosen = choose|value: u128| writes_uuid(text@, value);
                    law_text_writes_one_id(text@, value, chosen);
                }
                Some(ProjectId { value })
            },
            None => None,
        }
    }
}

proof fn lemma_uuid_bound(value: u128)
    ensures
        (value as nat) < pow16(32),
{
    reveal_with_fuel(pow16, 33);
}

/// The digits of a UUID can be told from its usual form.
proof fn lemma_uuid_text_digits(value: u128)
    ensures
        uuid_digits(value).len() == 32,
        uuid_text(value).len() == 36,
        uuid_digits(value) == uuid_text(value).subrange(0, 8) + uuid_text(value).subrange(9, 13)
            + uuid_text(value).subrange(14, 18) + uuid_text(value).subrange(19, 23)
            + uuid_text(value).subrange(24, 36),
{
    lemma_hex_text_shape(value as nat, 32);
}

/// Two projects with the same identifier text are one project.
pub proof fn law_id_text_injective(a: ProjectId, b: ProjectId)
    requires
        a.text() == b.text(),
    ensures
        a == b,
{
    lemma_uuid_text_digits(a.value);
    lemma_uuid_text_digits(b.value);
    lemma_uuid_bound(a.value);
    lemma_uuid_bound(b.value);
    lemma_hex_text_injective(a.value as nat, b.value as nat, 32);
}

/// No text writes two identifiers.
pub proof fn law_text_writes_one_id(text: Seq<char>, a: u128, b: u128)
    requires
        writes_uuid(text, a),
        writes_uuid(text, b),
    ensures
        a == b,
{
    reveal_strlit("urn:uuid:");
    let lower = ascii_lower(text);
    lemma_uuid_text_digits(a);
    lemma_uuid_text_digits(b);
    lemma_uuid_bound(a);
    lemma_uuid_bound(b);
    if lower.len() == 38 {
        assert(lower.subrange(1, 37) =~= uuid_text(a));
        assert(lower.subrange(1, 37) =~= uuid_text(b));
    }
    if lower.len() == 45 {
        assert(lower.skip(9) =~= uuid_text(a));
        assert(lower.skip(9) =~= uuid_text(b));
    }
    lemma_hex_text_injective(a as nat, b as nat, 32);
}

/// An identifier is what reading its own text gives.
pub proof fn law_id_text_round_trip(id: ProjectId)
    ensures
        ProjectId::parsed(id.text()) == Some(id),
{
    lemma_hex_text_shape(id.value as nat, 32);
    assert(ascii_lower(id.text()) =~= id.text());
    assert(writes_uuid(id.text(), id.value));
    let chosen = choose|value: u128| writes_uuid(id.text(), value);
    law_text_writes_one_id(id.text(), id.value, chosen);
}

/// The text of an identifier has no slash in it.
pub proof fn law_id_text_has_no_slash(id: ProjectId)
    ensures
        id.text().len() == 36,
        !id.text().contains('/'),
{
    lemma_hex_text_shape(id.value as nat, 32);
}

/// The text of an identifier starts with a hexadecimal digit.
pub proof fn law_id_text_starts_with_digit(id: ProjectId)
    ensures
        id.text().len() > 0,
        is_hex_digit(id.text().first()),
{
    lemma_hex_text_shape(id.value as nat, 32);
}

} // verus!

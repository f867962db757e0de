//! Mappings from shipped code back to the code that was written.

use vstd::prelude::*;

use crate::error::{joined, unit_result, AppError, ErrorView};
use crate::project::ProjectId;
use crate::storage::{PutObject, Storage};
use crate::text::{chars_of, is_blank, text_view, trim_chars};

pub mod javascript;
pub mod proguard;
pub mod retracing;
pub mod written;

verus! {

/// The kinds of mappings.
#[derive(Debug, Clone, Copy, PartialEq, Eq, Structural)]
pub enum MappingType {
    JavaScript,
    Proguard,
}

/// Where in the original sources a position comes from.
#[derive(Debug)]
pub struct OriginalPosition {
    pub source: String,
    pub line: u32,
    pub column: u32,
    pub name: Option<String>,
}

/// An [`OriginalPosition`] with its texts as sequences of characters.
pub struct PositionView {
    pub source: Seq<char>,
    pub line: u32,
    pub column: u32,
    pub name: Option<Seq<char>>,
}

impl View for OriginalPosition {
    type V = PositionView;

    open spec fn view(&self) -> PositionView {
        PositionView {
            source: self.source@,
            line: self.line,
            column: self.column,
            name: text_view(self.name),
        }
    }
}

/// What is said of a field: an error where it has nothing but white space.
pub open spec fn non_empty(field: Seq<char>, value: Seq<char>) -> Result<(), ErrorView> {
    if is_blank(value) {
        Err(ErrorView::BadRequest(field + " is required"@))
    } else {
        Ok(())
    }
}

/// Refuses a value that is empty or nothing but white space.
pub fn require_non_empty(field: &str, value: &str) -> (checked: Result<(), AppError>)
    ensures
        unit_result(checked) == non_empty(field@, value@),
{
    if trim_chars(&chars_of(value)).len() == 0 {
        Err(AppError::BadRequest(joined(field, " is required")))
    } else {
        Ok(())
    }
}

/// The key under which a file of a build is stored.
pub open spec fn object_key(
    project_id: ProjectId,
    build_id: Seq<char>,
    file_name: Seq<char>,
) -> Seq<char> {
    project_id.text() + "/"@ + build_id + "/"@ + file_name
}

pub fn s3_key(project_id: ProjectId, build_id: &str, file_name: &str) -> (key: String)
    ensures
        key@ == object_key(project_id, build_id@, file_name@),
{
    let mut key = project_id.to_text();
    key.append("/");
    key.append(build_id);
    key.append("/");
    key.append(file_name);
    key
}

/// What comes of preparing the next of several objects.
pub open spec fn put_next(
    storage: Storage,
    key: Seq<char>,
    content: Seq<u8>,
    next: Result<Option<PutObject>, AppError>,
) -> bool {
    match next {
        Ok(Some(object)) => storage.is_put(key, content, Ok(object)),
        Ok(None) => false,
        Err(error) => storage.is_put(key, content, Err(error)),
    }
}

} // verus!

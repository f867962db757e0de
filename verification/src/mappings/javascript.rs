//! Source maps of JavaScript bundles.

use vstd::multiset::Multiset;
use vstd::prelude::*;
use vstd::utf8::encode_utf8;

use crate::error::{joined, AppError, ErrorView};
use crate::mappings::{object_key, put_next, s3_key, OriginalPosition, PositionView};
use crate::project::ProjectId;
use crate::storage::{PutObject, Storage};
use crate::text::{chars_of, strip_suffix_chars, text_view};

verus! {

/// The object to store next when source maps are taken in, each with its file
/// name, and `done` of them are stored.
pub fn ingest(
    storage: &Storage,
    project_id: ProjectId,
    build_id: &str,
    sourcemaps: &[(String, String)],
    done: usize,
) -> (next: Result<Option<PutObject>, AppError>)
    ensures
        if done < sourcemaps@.len() {
            let (file_name, content) = sourcemaps@[done as int];
            put_next(
                *storage,
                object_key(project_id, build_id@, file_name@),
                encode_utf8(content@),
                next,
            )
        } else {
            next matches Ok(None)
        },
{
    if done >= sourcemaps.len() {
        return Ok(None);
    }
    let entry = &sourcemaps[done];
    let key = s3_key(project_id, build_id, entry.0.as_str());
    match storage.put(key.as_str(), entry.1.as_str().as_bytes()) {
        Ok(object) => Ok(Some(object)),
        Err(error) => Err(error),
    }
}

/// The file that holds the source map of a script: the script's name with
/// `.map` behind it, unless it ends so already.
pub open spec fn map_file(file_name: Seq<char>) -> Seq<char> {
    if ".map"@.is_suffix_of(file_name) {
        file_name
    } else {
        file_name + ".map"@
    }
}

pub fn map_file_name(file_name: &str) -> (name: String)
    ensures
        name@ == map_file(file_name@),
{
    let mut name = file_name.to_owned();
    if strip_suffix_chars(&chars_of(file_name), ".map").is_none() {
        name.append(".map");
    }
    name
}

/// Asking for the source map of a source map gives the same file.
pub proof fn law_map_file_idempotent(file_name: Seq<char>)
    ensures
        ".map"@.is_suffix_of(map_file(file_name)),
        map_file(map_file(file_name)) == map_file(file_name),
{
}

/// The source map of a script is named by the script, and at most `.map` behind
/// it; that is there once more only if the name does not end so already.
pub proof fn law_map_file_keeps_the_name(file_name: Seq<char>)
    ensures
        file_name.is_prefix_of(map_file(file_name)),
        ".map"@.is_suffix_of(file_name) ==> map_file(file_name).len() == file_name.len(),
        !".map"@.is_suffix_of(file_name) ==> map_file(file_name).len() == file_name.len() + 4,
{
    reveal_strlit(".map");
}

// ---------------------------------------------------------------------------
// Source maps
// ---------------------------------------------------------------------------

/// One token of a source map: a place in the shipped code, and where it comes
/// from, as far as that is known. Lines and columns count from zero.
#[derive(Debug)]
pub struct SourceToken {
    pub dst_line: u32,
    pub dst_col: u32,
    pub source: Option<String>,
    pub src_line: u32,
    pub src_col: u32,
    pub name: Option<String>,
    /// The token speaks of all columns up to the next token.
    pub is_range: bool,
}

pub struct TokenView {
    pub dst_line: u32,
    pub dst_col: u32,
    pub source: Option<Seq<char>>,
    pub src_line: u32,
    pub src_col: u32,
    pub name: Option<Seq<char>>,
    pub is_range: bool,
}

impl View for SourceToken {
    type V = TokenView;

    open spec fn view(&self) -> TokenView {
        TokenView {
            dst_line: self.dst_line,
            dst_col: self.dst_col,
            source: text_view(self.source),
            src_line: self.src_line,
            src_col: self.src_col,
            name: text_view(self.name),
            is_range: self.is_range,
        }
    }
}

impl TokenView {
    /// The token stands at a place or before it.
    pub open spec fn reaches(self, line: u32, col: u32) -> bool {
        self.dst_line < line || (self.dst_line == line && self.dst_col <= col)
    }

    /// The token stands after another.
    pub open spec fn is_after(self, other: TokenView) -> bool {
        self.dst_line > other.dst_line || (self.dst_line == other.dst_line && self.dst_col
            > other.dst_col)
    }

    /// The token as it speaks of a column behind it: a range token moves along.
    pub open spec fn at_column(self, col: u32) -> TokenView {
        if self.is_range {
            let moved = self.src_col + (col - self.dst_col);
            TokenView {
                src_col: if moved > u32::MAX {
                    u32::MAX
                } else {
                    moved as u32
                },
                ..self
            }
        } else {
            self
        }
    }

    /// The token speaks of a column that it cannot be moved along to: it is a
    /// range token, and the column, on a later line, is smaller than its own.
    pub open spec fn is_beyond(self, col: u32) -> bool {
        self.is_range && self.dst_col > col
    }
}

/// A source map that was read.
#[verifier::external_type_specification]
#[verifier::external_body]
pub struct ExSourceMap(sourcemap::SourceMap);

/// The tokens of a source map, in the order in which it holds them.
pub uninterp spec fn map_tokens(map: sourcemap::SourceMap) -> Seq<TokenView>;

/// The tokens of the source map that some data holds, or the wording of what
/// is wrong with it. Tokens at one place have no order among them.
pub uninterp spec fn parsed_source_map(data: Seq<u8>) -> Result<Multiset<TokenView>, Seq<char>>;

/// The tokens are sorted by their place.
pub open spec fn is_sorted_map(tokens: Seq<TokenView>) -> bool {
    forall|i: int, j: int|
        0 <= i <= j < tokens.len() ==> !(#[trigger] tokens[i]).is_after(#[trigger] tokens[j])
}

/// No token that reaches a place stands after the one at `i`, which does.
pub open spec fn is_closest_at(tokens: Seq<TokenView>, line: u32, col: u32, i: int) -> bool {
    &&& 0 <= i < tokens.len()
    &&& tokens[i].reaches(line, col)
    &&& forall|j: int|
        0 <= j < tokens.len() && (#[trigger] tokens[j]).reaches(line, col) ==> !tokens[j].is_after(
            tokens[i],
        )
}

/// Which of the closest tokens is looked up: the first of those right at the
/// place, else the last.
pub open spec fn is_looked_up(tokens: Seq<TokenView>, line: u32, col: u32, i: int) -> bool {
    &&& is_closest_at(tokens, line, col, i)
    &&& if tokens[i].dst_line == line && tokens[i].dst_col == col {
        forall|j: int| 0 <= j < i ==> !#[trigger] is_closest_at(tokens, line, col, j)
    } else {
        forall|j: int| i < j < tokens.len() ==> !#[trigger] is_closest_at(tokens, line, col, j)
    }
}

/// Reads a source map with `sourcemap::SourceMap::from_slice`. Which tokens
/// there are, or which error, depends on the data alone. The tokens come
/// sorted by their place; how those at one place are ordered is left open.
#[verifier::external_body]
fn read_source_map(data: &[u8]) -> (parsed: Result<sourcemap::SourceMap, String>)
    ensures
        parsed matches Ok(map) ==> (parsed_source_map(data@) matches Ok(tokens) && tokens
            == map_tokens(map).to_multiset()),
        parsed matches Ok(map) ==> is_sorted_map(map_tokens(map)),
        parsed matches Err(text) ==> (parsed_source_map(data@) matches Err(e) && e == text@),
{
    sourcemap::SourceMap::from_slice(data).map_err(|e| e.to_string())
}

/// The token at an index: `sourcemap::SourceMap::get_token`, with what the
/// methods of `sourcemap::Token` say of it. The tokens are in a `Vec`, so
/// their number fits into a `usize`.
#[verifier::external_body]
fn token_at(map: &sourcemap::SourceMap, i: usize) -> (found: Option<SourceToken>)
    ensures
        found is Some <==> i < map_tokens(*map).len(),
        found matches Some(token) ==> token@ == map_tokens(*map)[i as int],
        found is Some ==> map_tokens(*map).len() <= usize::MAX,
{
    map.get_token(i).map(|t| SourceToken {
        dst_line: t.get_dst_line(),
        dst_col: t.get_dst_col(),
        source: t.get_source().map(|s| s.to_owned()),
        src_line: t.get_src_line(),
        src_col: t.get_src_col(),
        name: t.get_name().map(|s| s.to_owned()),
        is_range: t.is_range(),
    })
}

/// The token that is closest to a place, at it or before it:
/// `sourcemap::SourceMap::lookup_token`, with what the methods of
/// `sourcemap::Token` say of it. A range token is moved along to the column,
/// which must not be smaller than its own: the difference would overflow.
#[verifier::external_body]
fn look_up(map: &sourcemap::SourceMap, line: u32, col: u32) -> (found: Option<SourceToken>)
    requires
        is_sorted_map(map_tokens(*map)),
        forall|i: int|
            is_looked_up(map_tokens(*map), line, col, i) ==> !(#[trigger] map_tokens(
                *map,
            )[i]).is_beyond(col),
    ensures
        found is None <==> forall|i: int|
            0 <= i < map_tokens(*map).len() ==> !(#[trigger] map_tokens(*map)[i]).reaches(
                line,
                col,
            ),
        found matches Some(token) ==> exists|i: int| #[trigger]
            is_looked_up(map_tokens(*map), line, col, i) && token@ == map_tokens(*map)[i].at_column(
                col,
            ),
{
    map.lookup_token(line, col).map(|t| SourceToken {
        dst_line: t.get_dst_line(),
        dst_col: t.get_dst_col(),
        source: t.get_source().map(|s| s.to_owned()),
        src_line: t.get_src_line(),
        src_col: t.get_src_col(),
        name: t.get_name().map(|s| s.to_owned()),
        is_range: t.is_range(),
    })
}

// ---------------------------------------------------------------------------
// Original positions
// ---------------------------------------------------------------------------

/// A token of a source map is closest to a place, at it or before it.
pub open spec fn is_closest(
    tokens: Multiset<TokenView>,
    line: u32,
    col: u32,
    token: TokenView,
) -> bool {
    &&& tokens.contains(token)
    &&& token.reaches(line, col)
    &&& forall|other: TokenView|
        tokens.contains(other) && #[trigger] other.reaches(line, col) ==> !other.is_after(token)
}

/// A place counted from one, counted from zero instead.
pub open spec fn from_zero(n: u32) -> u32 {
    if n == 0 {
        0
    } else {
        (n - 1) as u32
    }
}

fn count_from_zero(n: u32) -> (counted: u32)
    ensures
        counted == from_zero(n),
{
    n.saturating_sub(1)
}

/// A place has a closest token that cannot be moved along to it.
pub open spec fn has_closest_beyond(
    parsed: Result<Multiset<TokenView>, Seq<char>>,
    line: u32,
    column: u32,
) -> bool {
    parsed matches Ok(tokens) && exists|token: TokenView| #[trigger]
        is_closest(tokens, from_zero(line), from_zero(column), token) && token.is_beyond(
            from_zero(column),
        )
}

/// A result of a position by what it holds.
pub open spec fn position_result(result: Result<OriginalPosition, AppError>) -> Result<
    PositionView,
    ErrorView,
> {
    match result {
        Ok(position) => Ok(position@),
        Err(error) => Err(error@),
    }
}

/// The position that a looked up token stands for, counted from one. There is
/// none without a token, without a source, or where line or column are marked
/// as unknown by the largest number.
pub open spec fn token_position(found: Option<TokenView>) -> Result<PositionView, ErrorView> {
    match found {
        Some(token) => match token.source {
            Some(source) => if token.src_line == u32::MAX || token.src_col == u32::MAX {
                Err(ErrorView::NotFound)
            } else {
                Ok(
                    PositionView {
                        source,
                        line: (token.src_line + 1) as u32,
                        column: (token.src_col + 1) as u32,
                        name: token.name,
                    },
                )
            },
            None => Err(ErrorView::NotFound),
        },
        None => Err(ErrorView::NotFound),
    }
}

/// A looked up token by what it holds.
pub open spec fn found_view(found: Option<SourceToken>) -> Option<TokenView> {
    match found {
        Some(token) => Some(token@),
        None => None,
    }
}

/// The position that a looked up token stands for.
pub fn position_of(found: Option<SourceToken>) -> (position: Result<OriginalPosition, AppError>)
    ensures
        position_result(position) == token_position(found_view(found)),
        position matches Ok(place) ==> (found matches Some(token) && token.source matches Some(
            source,
        ) && place.source@ == source@ && place.line == token.src_line + 1 && place.column
            == token.src_col + 1 && text_view(place.name) == text_view(token.name)),
        position matches Err(error) ==> error is NotFound && (found matches Some(token)
            ==> token.source is None || token.src_line == u32::MAX || token.src_col == u32::MAX),
{
    match found {
        Some(token) => match token.source {
            Some(source) => {
                if token.src_line == u32::MAX || token.src_col == u32::MAX {
                    return Err(AppError::NotFound);
                }
                Ok(
                    OriginalPosition {
                        source,
                        line: token.src_line + 1,
                        column: token.src_col + 1,
                        name: token.name,
                    },
                )
            },
            None => Err(AppError::NotFound),
        },
        None => Err(AppError::NotFound),
    }
}

/// The error for data that is no source map.
pub fn invalid_source_map(reason: &str) -> (error: AppError)
    ensures
        error@ == ErrorView::BadRequest("invalid sourcemap: "@ + reason@),
{
    AppError::BadRequest(joined("invalid sourcemap: ", reason))
}

/// What a source map gives for a place in the shipped code, counted from one:
/// the position that a closest token stands for. It is none that cannot be moved
/// along to the place.
pub open spec fn is_applied(
    parsed: Result<Multiset<TokenView>, Seq<char>>,
    line: u32,
    column: u32,
    position: Result<PositionView, ErrorView>,
) -> bool {
    let (l, c) = (from_zero(line), from_zero(column));
    match parsed {
        Err(text) => position == Err::<PositionView, _>(
            ErrorView::BadRequest("invalid sourcemap: "@ + text),
        ),
        Ok(tokens) => {
            ||| exists|token: TokenView| #[trigger]
                is_closest(tokens, l, c, token) && !token.is_beyond(c) && position
                    == token_position(Some(token.at_column(c)))
            ||| position == token_position(None) && forall|token: TokenView|
                tokens.contains(token) ==> !#[trigger] token.reaches(l, c)
        },
    }
}

proof fn lemma_closest(tokens: Seq<TokenView>, line: u32, col: u32, i: int)
    requires
        is_closest_at(tokens, line, col, i),
    ensures
        is_closest(tokens.to_multiset(), line, col, tokens[i]),
{
    broadcast use vstd::seq_lib::group_to_multiset_ensures;

}

/// A token that cannot be moved along to a place is looked up for it.
spec fn looks_up_beyond(tokens: Seq<TokenView>, line: u32, col: u32) -> bool {
    exists|i: int| #[trigger] is_looked_up(tokens, line, col, i) && tokens[i].is_beyond(col)
}

/// The position that a source map gives for a place, counted from one.
fn position_in(map: &sourcemap::SourceMap, line: u32, column: u32) -> (position: Result<
    OriginalPosition,
    AppError,
>)
    requires
        is_sorted_map(map_tokens(*map)),
        !looks_up_beyond(map_tokens(*map), from_zero(line), from_zero(column)),
    ensures
        is_applied(
            Ok(map_tokens(*map).to_multiset()),
            line,
            column,
            position_result(position),
        ),
{
    let l = count_from_zero(line);
    let c = count_from_zero(column);
    let found = look_up(map, l, c);
    proof {
        broadcast use vstd::seq_lib::group_to_multiset_ensures;

        let tokens = map_tokens(*map);
        match found_view(found) {
            Some(token) => {
                let i = choose|i: int| #[trigger]
                    is_looked_up(tokens, l, c, i) && token == tokens[i].at_column(c);
                lemma_closest(tokens, l, c, i);
            },
            None => {},
        }
    }
    position_of(found)
}

/// Traces a place in the shipped code, counted from one, back to its source.
pub fn apply(data: &[u8], _file_name: &str, line: u32, column: u32) -> (position: Result<
    OriginalPosition,
    AppError,
>)
    requires
        !has_closest_beyond(parsed_source_map(data@), line, column),
    ensures
        is_applied(parsed_source_map(data@), line, column, position_result(position)),
{
    match read_source_map(data) {
        Ok(map) => {
            proof {
                let (l, c) = (from_zero(line), from_zero(column));
                assert forall|i: int| #[trigger]
                    is_looked_up(map_tokens(map), l, c, i) implies !map_tokens(map)[i].is_beyond(
                    c,
                ) by {
                    lemma_closest(map_tokens(map), l, c, i);
                }
            }
            position_in(&map, line, column)
        },
        Err(text) => Err(invalid_source_map(text.as_str())),
    }
}

impl SourceToken {
    fn reaches(&self, line: u32, col: u32) -> (reaches: bool)
        ensures
            reaches == self@.reaches(line, col),
    {
        self.dst_line < line || (self.dst_line == line && self.dst_col <= col)
    }
}

/// The last token of a source map that reaches a place. It is a closest one;
/// and unless a closest token is right at the place, it is looked up.
fn last_reaching(map: &sourcemap::SourceMap, line: u32, col: u32) -> (last: Option<SourceToken>)
    requires
        is_sorted_map(map_tokens(*map)),
    ensures
        match last {
            Some(token) => exists|i: int| #[trigger]
                is_closest_at(map_tokens(*map), line, col, i) && token@ == map_tokens(*map)[i]
                    && forall|j: int|
                    i < j < map_tokens(*map).len() ==> !(#[trigger] map_tokens(*map)[j]).reaches(
                        line,
                        col,
                    ),
            None => forall|j: int|
                0 <= j < map_tokens(*map).len() ==> !(#[trigger] map_tokens(*map)[j]).reaches(
                    line,
                    col,
                ),
        },
{
    let ghost tokens = map_tokens(*map);
    let mut n: usize = 0;
    let mut last: Option<SourceToken> = None;
    loop
        invariant
            tokens == map_tokens(*map),
            is_sorted_map(tokens),
            n <= tokens.len(),
            forall|i: int| 0 <= i < n ==> (#[trigger] tokens[i]).reaches(line, col),
            found_view(last) == if n > 0 {
                Some(tokens[n - 1])
            } else {
                None
            },
        ensures
            n == tokens.len() || !tokens[n as int].reaches(line, col),
        decreases tokens.len() - n,
    {
        let token = match token_at(map, n) {
            Some(token) => token,
            None => {
                break;
            },
        };
        if !token.reaches(line, col) {
            break;
        }
        last = Some(token);
        n += 1;
    }
    proof {
        if n > 0 {
            assert(is_closest_at(tokens, line, col, n - 1));
        }
    }
    last
}

/// Traces a place back to its source, unless the token that is looked up for it
/// is a range token that would have to be moved back: there is no result then.
/// That can be where the line has no token up to the column, and a last one of
/// the lines before is a range token at a larger column. Where several tokens
/// stand at the place of that one, their order in the source map decides.
pub fn apply_checked(data: &[u8], file_name: &str, line: u32, column: u32) -> (position: Option<
    Result<OriginalPosition, AppError>,
>)
    ensures
        match position {
            Some(position) => is_applied(
                parsed_source_map(data@),
                line,
                column,
                position_result(position),
            ),
            None => has_closest_beyond(parsed_source_map(data@), line, column),
        },
{
    let map = match read_source_map(data) {
        Ok(map) => map,
        Err(_) => {
            return Some(apply(data, file_name, line, column));
        },
    };
    let l = count_from_zero(line);
    let c = count_from_zero(column);
    let ghost tokens = map_tokens(map);
    let last = last_reaching(&map, l, c);
    proof {
        broadcast use vstd::seq_lib::group_to_multiset_ensures;

        assert forall|token: TokenView| #[trigger]
            is_closest(tokens.to_multiset(), l, c, token) implies exists|i: int|
            is_closest_at(tokens, l, c, i) && tokens[i] == token by {
            let i = choose|i: int| 0 <= i < tokens.len() && tokens[i] == token;
            assert(is_closest_at(tokens, l, c, i));
        }
    }
    match last {
        Some(token) => {
            if token.dst_col <= c {
                return Some(apply(data, file_name, line, column));
            }
            if token.is_range {
                proof {
                    let i = choose|i: int| #[trigger]
                        is_closest_at(tokens, l, c, i) && token@ == tokens[i];
                    lemma_closest(tokens, l, c, i);
                }
                return None;
            }
            Some(position_in(&map, line, column))
        },
        None => Some(apply(data, file_name, line, column)),
    }
}

// ---------------------------------------------------------------------------
// Laws
// ---------------------------------------------------------------------------

/// A token stands at a place or before it: on an earlier line, or on the line
/// of the place at a column that is not larger. Token and place count from zero.
pub open spec fn stands_up_to(token: TokenView, line: int, col: int) -> bool {
    token.dst_line < line || (token.dst_line == line && token.dst_col <= col)
}

/// A token is the nearest before a place or at it: of the tokens up to the place
/// none is on a later line, and none on its line at a larger column.
pub open spec fn is_nearest(
    tokens: Multiset<TokenView>,
    line: int,
    col: int,
    token: TokenView,
) -> bool {
    &&& tokens.contains(token)
    &&& stands_up_to(token, line, col)
    &&& forall|other: TokenView|
        tokens.contains(other) && #[trigger] stands_up_to(other, line, col) ==> other.dst_line
            < token.dst_line || (other.dst_line == token.dst_line && other.dst_col
            <= token.dst_col)
}

/// The original column that a token gives for a generated one: its own, or, of
/// a range token, as far behind its own as the generated column is.
pub open spec fn original_column(token: TokenView, col: int) -> int {
    if token.is_range {
        token.src_col + (col - token.dst_col)
    } else {
        token.src_col as int
    }
}

/// A position is what a token gives for a generated column: its source and its
/// name, and its line and column counted from one. There is none without a
/// source, or where line or column are past all that is known.
pub open spec fn is_position_of(
    token: TokenView,
    col: int,
    position: Result<PositionView, ErrorView>,
) -> bool {
    let known = token.source is Some && token.src_line < u32::MAX && original_column(token, col)
        < u32::MAX;
    match position {
        Ok(place) => {
            &&& known
            &&& token.source == Some(place.source)
            &&& place.name == token.name
            &&& place.line == token.src_line + 1
            &&& place.column == original_column(token, col) + 1
        },
        Err(error) => !known && error is NotFound,
    }
}

/// A place counted from one, counted from zero: zero stays.
pub open spec fn less_one(n: u32) -> int {
    if n > 0 {
        n - 1
    } else {
        0
    }
}

proof fn lemma_nearest(tokens: Multiset<TokenView>, line: u32, col: u32, token: TokenView)
    ensures
        is_closest(tokens, line, col, token) <==> is_nearest(
            tokens,
            line as int,
            col as int,
            token,
        ),
{
    assert forall|t: TokenView| #[trigger] t.reaches(line, col) <==> stands_up_to(
        t,
        line as int,
        col as int,
    ) by {
    }
    if is_closest(tokens, line, col, token) {
        assert forall|other: TokenView|
            tokens.contains(other) && #[trigger] stands_up_to(
                other,
                line as int,
                col as int,
            ) implies other.dst_line < token.dst_line || (other.dst_line == token.dst_line
            && other.dst_col <= token.dst_col) by {
            assert(other.reaches(line, col));
        }
    }
    if is_nearest(tokens, line as int, col as int, token) {
        assert forall|other: TokenView|
            tokens.contains(other) && #[trigger] other.reaches(
                line,
                col,
            ) implies !other.is_after(token) by {
            assert(stands_up_to(other, line as int, col as int));
        }
    }
}

/// A place is traced back through a nearest token, whatever generated line and
/// column that stands at: the position is what the token gives. Without a token
/// up to the place, and only then or where the token gives none, nothing is
/// found. Data that is no source map is refused with what is wrong with it.
pub proof fn law_place_is_traced_through_a_nearest_token(
    parsed: Result<Multiset<TokenView>, Seq<char>>,
    line: u32,
    column: u32,
    position: Result<PositionView, ErrorView>,
)
    requires
        is_applied(parsed, line, column, position),
    ensures
        match parsed {
            Ok(tokens) => {
                ||| exists|token: TokenView| #[trigger]
                    is_nearest(tokens, less_one(line), less_one(column), token) && is_position_of(
                        token,
                        less_one(column),
                        position,
                    ) && (token.is_range ==> token.dst_col <= less_one(column))
                ||| position == Err::<PositionView, _>(ErrorView::NotFound) && forall|
                    token: TokenView,
                |
                    tokens.contains(token) ==> !#[trigger] stands_up_to(
                        token,
                        less_one(line),
                        less_one(column),
                    )
            },
            Err(text) => position == Err::<PositionView, _>(
                ErrorView::BadRequest("invalid sourcemap: "@ + text),
            ),
        },
{
    let (l, c) = (from_zero(line), from_zero(column));
    assert(l as int == less_one(line) && c as int == less_one(column));
    if let Ok(tokens) = parsed {
        if exists|token: TokenView| #[trigger]
            is_closest(tokens, l, c, token) && !token.is_beyond(c) && position == token_position(
                Some(token.at_column(c)),
            ) {
            let token = choose|token: TokenView| #[trigger]
                is_closest(tokens, l, c, token) && !token.is_beyond(c) && position
                    == token_position(Some(token.at_column(c)));
            lemma_nearest(tokens, l, c, token);
            assert(is_nearest(tokens, less_one(line), less_one(column), token));
            assert(is_position_of(token, less_one(column), position));
        } else {
            assert(position == Err::<PositionView, _>(ErrorView::NotFound));
            assert forall|token: TokenView| tokens.contains(token) implies !#[trigger] stands_up_to(
                token,
                less_one(line),
                less_one(column),
            ) by {
                assert(!token.reaches(l, c));
            }
        }
    }
}

/// Where one token alone is nearest to a place, its source, name, line and column
/// are what comes out, if they are known; else nothing is found.
pub proof fn law_only_nearest_token_decides(
    tokens: Multiset<TokenView>,
    line: u32,
    column: u32,
    token: TokenView,
    position: Result<PositionView, ErrorView>,
)
    requires
        is_applied(Ok(tokens), line, column, position),
        is_nearest(tokens, less_one(line), less_one(column), token),
        forall|other: TokenView| #[trigger]
            is_nearest(tokens, less_one(line), less_one(column), other) ==> other == token,
    ensures
        is_position_of(token, less_one(column), position),
{
    law_place_is_traced_through_a_nearest_token(Ok(tokens), line, column, position);
    assert(stands_up_to(token, less_one(line), less_one(column)));
}

/// In a source map with one token for each generated line, at its start, every
/// place of a line is traced back to where the token of that line comes from:
/// the second line to the second one, and so on.
pub proof fn law_each_line_has_its_own_position(
    tokens: Seq<TokenView>,
    sources: Seq<Seq<char>>,
    i: int,
    column: u32,
    position: Result<PositionView, ErrorView>,
)
    requires
        tokens.len() == sources.len(),
        0 <= i < tokens.len() <= u32::MAX,
        forall|k: int|
            0 <= k < tokens.len() ==> (#[trigger] tokens[k]).dst_line == k && tokens[k].dst_col == 0
                && !tokens[k].is_range && tokens[k].source == Some(sources[k])
                && tokens[k].src_line < u32::MAX && tokens[k].src_col < u32::MAX,
        is_applied(Ok(tokens.to_multiset()), (i + 1) as u32, column, position),
    ensures
        position == Ok::<_, ErrorView>(
            PositionView {
                source: sources[i],
                line: (tokens[i].src_line + 1) as u32,
                column: (tokens[i].src_col + 1) as u32,
                name: tokens[i].name,
            },
        ),
{
    broadcast use vstd::seq_lib::group_to_multiset_ensures;

    let all = tokens.to_multiset();
    let line = (i + 1) as u32;
    let (l, c) = (less_one(line), less_one(column));
    let token = tokens[i];
    assert(all.contains(token));
    assert(l == i);
    assert forall|other: TokenView| all.contains(other) implies exists|k: int|
        0 <= k < tokens.len() && #[trigger] tokens[k] == other by {
        let k = choose|k: int| 0 <= k < tokens.len() && tokens[k] == other;
    }
    assert(is_nearest(all, l, c, token)) by {
        assert forall|other: TokenView|
            all.contains(other) && #[trigger] stands_up_to(other, l, c) implies other.dst_line
            < token.dst_line || (other.dst_line == token.dst_line && other.dst_col
            <= token.dst_col) by {
            let k = choose|k: int| 0 <= k < tokens.len() && #[trigger] tokens[k] == other;
        }
    }
    assert forall|other: TokenView| #[trigger] is_nearest(all, l, c, other) implies other
        == token by {
        let k = choose|k: int| 0 <= k < tokens.len() && #[trigger] tokens[k] == other;
        assert(stands_up_to(token, l, c));
    }
    law_only_nearest_token_decides(all, line, column, token, position);
}

/// A token and a position by what they hold.
pub proof fn law_tokens_by_what_they_hold(token: SourceToken, position: OriginalPosition)
    ensures
        token@.dst_line == token.dst_line,
        token@.dst_col == token.dst_col,
        token@.src_line == token.src_line,
        token@.src_col == token.src_col,
        token@.is_range == token.is_range,
        token@.source == text_view(token.source),
        token@.name == text_view(token.name),
        position@.source == position.source@,
        position@.line == position.line,
        position@.column == position.column,
        position@.name == text_view(position.name),
{
}

/// A place can be without a result only where a nearest token of the source map is a range
/// token that starts at a larger column than the place has.
pub proof fn law_only_range_tokens_leave_a_place_without_result(
    parsed: Result<Multiset<TokenView>, Seq<char>>,
    line: u32,
    column: u32,
)
    ensures
        has_closest_beyond(parsed, line, column) <==> (parsed matches Ok(tokens) && exists|
            token: TokenView,
        | #[trigger]
            is_nearest(tokens, less_one(line), less_one(column), token) && token.is_range
                && token.dst_col > less_one(column)),
{
    let (l, c) = (from_zero(line), from_zero(column));
    assert(l as int == less_one(line) && c as int == less_one(column));
    if let Ok(tokens) = parsed {
        assert forall|token: TokenView| #[trigger] is_closest(tokens, l, c, token) <==> is_nearest(
            tokens,
            less_one(line),
            less_one(column),
            token,
        ) by {
            lemma_nearest(tokens, l, c, token);
        }
        if exists|token: TokenView| #[trigger]
            is_nearest(tokens, less_one(line), less_one(column), token) && token.is_range
                && token.dst_col > less_one(column) {
            let token = choose|token: TokenView| #[trigger]
                is_nearest(tokens, less_one(line), less_one(column), token) && token.is_range
                    && token.dst_col > less_one(column);
            lemma_nearest(tokens, l, c, token);
            assert(is_closest(tokens, l, c, token) && token.is_beyond(c));
        }
    }
}

} // verus!

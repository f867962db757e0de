//! ProGuard mapping files: reading them, combining them, and turning an
//! obfuscated stack trace back into the original one.

use vstd::hash_map::StringHashMap;
use vstd::prelude::*;
use vstd::utf8::{decode_utf8, encode_utf8, valid_utf8};

use crate::decimal::{decimal_text, parse_decimal, push_decimal, read_decimal};
use crate::error::{joined, text_result, AppError, ErrorView};
use crate::mappings::{object_key, put_next, s3_key, OriginalPosition, PositionView};
use crate::project::ProjectId;
use crate::storage::{PutObject, Storage};
use crate::text::{
    chars_of, find, find_chars, last_word, last_word_chars, lines, push_chars, read_utf8, rfind,
    rfind_chars, rsplit_once, rsplit_once_chars, same_text, slices_view, split_lines, split_once,
    split_once_chars, str_view, strip_prefix, strip_prefix_chars, strip_suffix,
    strip_suffix_chars, strs_view, text_of, text_view, trim, trim_chars, trim_end, trim_end_char,
    trim_end_chars, trim_end_matches, trim_start, trim_start_char, trim_start_chars,
    trim_start_matches, utf8_error_text,
};

verus! {

// ---------------------------------------------------------------------------
// What a mapping says
// ---------------------------------------------------------------------------

/// One method of a class, with the lines that it covers where they are known.
#[derive(Debug)]
pub struct MethodMapping {
    pub original_name: String,
    pub obfuscated_name: String,
    pub start_line: Option<u32>,
    pub end_line: Option<u32>,
}

pub struct MethodView {
    pub original_name: Seq<char>,
    pub obfuscated_name: Seq<char>,
    pub start_line: Option<u32>,
    pub end_line: Option<u32>,
}

impl View for MethodMapping {
    type V = MethodView;

    open spec fn view(&self) -> MethodView {
        MethodView {
            original_name: self.original_name@,
            obfuscated_name: self.obfuscated_name@,
            start_line: self.start_line,
            end_line: self.end_line,
        }
    }
}

/// What a mapping says of one class.
pub struct ClassMapping {
    pub original_name: String,
    pub file_name: Option<String>,
    pub methods: Vec<MethodMapping>,
    pub fields: StringHashMap<String>,
}

pub struct ClassView {
    pub original_name: Seq<char>,
    pub file_name: Option<Seq<char>>,
    /// In the order of the mapping file.
    pub methods: Seq<MethodView>,
    /// Original names by obfuscated name.
    pub fields: Map<Seq<char>, Seq<char>>,
}

pub open spec fn methods_view(methods: Seq<MethodMapping>) -> Seq<MethodView> {
    methods.map_values(|m: MethodMapping| m@)
}

pub open spec fn fields_view(fields: Map<Seq<char>, String>) -> Map<Seq<char>, Seq<char>> {
    fields.map_values(|name: String| name@)
}

impl View for ClassMapping {
    type V = ClassView;

    open spec fn view(&self) -> ClassView {
        ClassView {
            original_name: self.original_name@,
            file_name: text_view(self.file_name),
            methods: methods_view(self.methods@),
            fields: fields_view(self.fields@),
        }
    }
}

/// A class of which only the name is known.
pub open spec fn new_class(original_name: Seq<char>) -> ClassView {
    ClassView { original_name, file_name: None, methods: seq![], fields: Map::empty() }
}

/// What two parts of a mapping say of one class: the first known file name,
/// all methods, and all fields, where the later part has the last word.
pub open spec fn merge_class(first: ClassView, second: ClassView) -> ClassView {
    ClassView {
        original_name: first.original_name,
        file_name: if first.file_name is None {
            second.file_name
        } else {
            first.file_name
        },
        methods: first.methods + second.methods,
        fields: first.fields.union_prefer_right(second.fields),
    }
}

impl ClassMapping {
    /// Takes in what another part of the mapping says of the same class.
    pub fn merge(&mut self, other: ClassMapping)
        ensures
            final(self)@ == merge_class(old(self)@, other@),
    {
        if self.file_name.is_none() {
            self.file_name = other.file_name;
        }
        let mut methods = other.methods;
        self.methods.append(&mut methods);
        self.fields.union_prefer_right(other.fields);
        assert(self@.methods == merge_class(old(self)@, other@).methods);
        assert(self@.fields == merge_class(old(self)@, other@).fields);
    }
}

// ---------------------------------------------------------------------------
// Classes by obfuscated name
// ---------------------------------------------------------------------------

/// Classes by their obfuscated name.
pub struct ClassTable {
    names: Vec<String>,
    classes: Vec<ClassMapping>,
    index: StringHashMap<usize>,
}

impl ClassTable {
    #[verifier::type_invariant]
    spec fn well_formed(self) -> bool {
        &&& self.names@.len() == self.classes@.len()
        &&& forall|i: int|
            0 <= i < self.names@.len() ==> self.index@.contains_pair(
                #[trigger] self.names@[i]@,
                i as usize,
            )
        &&& forall|name: Seq<char>| #[trigger]
            self.index@.contains_key(name) ==> self.index@[name] < self.names@.len()
                && self.names@[self.index@[name] as int]@ == name
    }
}

impl View for ClassTable {
    type V = Map<Seq<char>, ClassView>;

    closed spec fn view(&self) -> Map<Seq<char>, ClassView> {
        self.index@.map_values(|i: usize| self.classes@[i as int]@)
    }
}

impl ClassTable {
    pub fn new() -> (table: ClassTable)
        ensures
            table@ == Map::<Seq<char>, ClassView>::empty(),
    {
        let table = ClassTable {
            names: Vec::new(),
            classes: Vec::new(),
            index: StringHashMap::new(),
        };
        table
    }

    pub fn get(&self, name: &str) -> (class: Option<&ClassMapping>)
        ensures
            match class {
                Some(class) => self@.contains_pair(name@, class@),
                None => !self@.contains_key(name@),
            },
    {
        proof {
            use_type_invariant(self);
        }
        match self.index.get(name) {
            Some(i) => Some(&self.classes[*i]),
            None => None,
        }
    }

    pub fn contains_key(&self, name: &str) -> (found: bool)
        ensures
            found == self@.contains_key(name@),
    {
        self.index.contains_key(name)
    }

    /// Puts a class under a name, in the place of what was there.
    pub fn insert(self, name: String, class: ClassMapping) -> (table: ClassTable)
        ensures
            table@ == self@.insert(name@, class@),
    {
        proof {
            use_type_invariant(&self);
        }
        let ClassTable { mut names, mut classes, mut index } = self;
        let found: Option<usize> = match index.get(name.as_str()) {
            Some(i) => Some(*i),
            None => None,
        };
        match found {
            Some(i) => {
                classes[i] = class;
            },
            None => {
                let i: usize = classes.len();
                index.insert(name.clone(), i);
                names.push(name);
                classes.push(class);
            },
        }
        let table = ClassTable { names, classes, index };
        table
    }

    /// Adds a class under a name, merged into what is known under it already.
    pub fn merge(self, name: String, class: ClassMapping) -> (table: ClassTable)
        ensures
            table@ == merge_entry(self@, name@, class@),
    {
        proof {
            use_type_invariant(&self);
        }
        let found: Option<usize> = match self.index.get(name.as_str()) {
            Some(i) => Some(*i),
            None => None,
        };
        match found {
            Some(i) => {
                let ClassTable { names, mut classes, index } = self;
                classes[i].merge(class);
                let table = ClassTable { names, classes, index };
                table
            },
            None => self.insert(name, class),
        }
    }
}

impl ClassTable {
    /// Adds all classes of another table, each merged into what is known of it.
    pub fn merge_table(self, other: ClassTable) -> (table: ClassTable)
        ensures
            table@ == merge_mappings(self@, other@),
    {
        proof {
            use_type_invariant(&other);
        }
        let ghost given = other;
        let mut table = self;
        let ClassTable { mut names, mut classes, index: _ } = other;
        let ghost n = names@.len();
        loop
            invariant
                names@.len() == classes@.len() <= n,
                n == given.names@.len(),
                given.well_formed(),
                names@ == given.names@.take(names@.len() as int),
                classes@ == given.classes@.take(classes@.len() as int),
                table@ == merge_mappings(self@, given.from(names@.len() as int)),
            ensures
                table@ == merge_mappings(self@, given.from(0)),
            decreases names@.len(),
        {
            let ghost k = names@.len() - 1;
            let (name, class) = match (names.pop(), classes.pop()) {
                (Some(name), Some(class)) => (name, class),
                _ => {
                    break;
                },
            };
            table = table.merge(name, class);
            proof {
                given.lemma_from(k);
            }
        }
        table
    }

    /// The classes whose place in the table is not before `k`.
    spec fn from(self, k: int) -> Map<Seq<char>, ClassView> {
        self@.restrict(
            Set::new(
                |name: Seq<char>| self.index@.contains_key(name) && self.index@[name] >= k,
            ),
        )
    }

    proof fn lemma_from(self, k: int)
        requires
            self.well_formed(),
            0 <= k < self.names.len(),
        ensures
            self.from(k) == self.from(k + 1).insert(self.names@[k]@, self.classes@[k]@),
            !self.from(k + 1).contains_key(self.names@[k]@),
    {
    }
}

/// A table with one more class, merged into what is known of it already.
pub open spec fn merge_entry(
    table: Map<Seq<char>, ClassView>,
    name: Seq<char>,
    class: ClassView,
) -> Map<Seq<char>, ClassView> {
    if table.contains_key(name) {
        table.insert(name, merge_class(table[name], class))
    } else {
        table.insert(name, class)
    }
}

// ---------------------------------------------------------------------------
// The lines of a mapping file
// ---------------------------------------------------------------------------

/// The string under a member of the JSON object that a text holds: what
/// `serde_json::from_str::<Value>`, `Value::get` and `Value::as_str` give,
/// one after the other.
pub uninterp spec fn json_string_member(text: Seq<char>, member: Seq<char>) -> Option<Seq<char>>;

/// Reads a text with `serde_json::from_str` and looks a member up with
/// `Value::get` and `Value::as_str`. There is a string where the text is JSON,
/// the value an object, and the member a string; which one depends on nothing
/// but the text and the member's name.
#[verifier::external_body]
fn read_json_string_member(text: &str, member: &str) -> (value: Option<String>)
    ensures
        text_view(value) == json_string_member(text@, member@),
{
    let value = serde_json::from_str::<serde_json::Value>(text).ok()?;
    value.get(member)?.as_str().map(|s| s.to_owned())
}

/// The source file that a comment line names: the member `fileName` of the
/// JSON object that starts at the first brace.
pub open spec fn file_name_in(line: Seq<char>) -> Option<Seq<char>> {
    match find(line, "{"@) {
        Some(i) => json_string_member(line.skip(i), "fileName"@),
        None => None,
    }
}

pub fn extract_file_name(line: &[char]) -> (name: Option<String>)
    ensures
        text_view(name) == file_name_in(line@),
{
    match find_chars(line, &chars_of("{")) {
        Some(i) => {
            let json = &line[i..line.len()];
            read_json_string_member(text_of(json).as_str(), "fileName")
        },
        None => None,
    }
}

/// A class with the source file that a comment line names, if it names one.
pub open spec fn with_file_name(class: ClassView, found: Option<Seq<char>>) -> ClassView {
    match found {
        Some(file_name) => ClassView { file_name: Some(file_name), ..class },
        None => class,
    }
}

impl ClassMapping {
    /// Takes in the source file that a comment line names, if it names one.
    pub fn set_file_name(&mut self, found: Option<String>)
        ensures
            final(self)@ == with_file_name(old(self)@, text_view(found)),
    {
        match found {
            Some(file_name) => {
                self.file_name = Some(file_name);
            },
            None => {},
        }
    }
}

/// The original and the obfuscated name in a line `original -> obfuscated:`.
pub open spec fn class_line(line: Seq<char>) -> Option<(Seq<char>, Seq<char>)> {
    match strip_suffix(line, ":"@) {
        Some(body) => match split_once(body, " -> "@) {
            Some((original, obfuscated)) => Some((trim(original), trim(obfuscated))),
            None => None,
        },
        None => None,
    }
}

pub fn parse_class_line<'a>(line: &'a [char]) -> (names: Option<(&'a [char], &'a [char])>)
    ensures
        match names {
            Some((original, obfuscated)) => class_line(line@) == Some((original@, obfuscated@)),
            None => class_line(line@) is None,
        },
{
    match strip_suffix_chars(line, ":") {
        Some(body) => match split_once_chars(body, " -> ") {
            Some((original, obfuscated)) => Some((trim_chars(original), trim_chars(obfuscated))),
            None => None,
        },
        None => None,
    }
}

/// A name as it stands between what precedes it and the parameter list: the
/// last of the parts that spaces separate.
pub open spec fn name_before(s: Seq<char>) -> Seq<char> {
    match rsplit_once(s, " "@) {
        Some((_, name)) => name,
        None => s,
    }
}

/// The name of the method whose signature a text holds.
pub open spec fn method_name(s: Seq<char>) -> Option<Seq<char>> {
    match find(s, "("@) {
        Some(i) => Some(name_before(s.take(i))),
        None => None,
    }
}

pub fn parse_method_name(s: &[char]) -> (name: Option<String>)
    ensures
        text_view(name) == method_name(s@),
{
    match find_chars(s, &chars_of("(")) {
        Some(i) => {
            let before = &s[0..i];
            match rsplit_once_chars(before, " ") {
                Some((_, name)) => Some(text_of(name)),
                None => Some(text_of(before)),
            }
        },
        None => None,
    }
}

/// The name of a method and the lines that it covers.
#[derive(Debug)]
pub struct ParsedMethod {
    pub name: String,
    pub start_line: u32,
    pub end_line: u32,
}

pub struct ParsedMethodView {
    pub name: Seq<char>,
    pub start_line: u32,
    pub end_line: u32,
}

impl View for ParsedMethod {
    type V = ParsedMethodView;

    open spec fn view(&self) -> ParsedMethodView {
        ParsedMethodView {
            name: self.name@,
            start_line: self.start_line,
            end_line: self.end_line,
        }
    }
}

/// A number and what follows the first colon after it, in `number:rest`.
pub open spec fn number_and_rest(s: Seq<char>) -> Option<(u32, Seq<char>)> {
    match split_once(s, ":"@) {
        Some((number, rest)) => match parse_decimal(number, u32::MAX as nat) {
            Some(n) => Some((n as u32, rest)),
            None => None,
        },
        None => None,
    }
}

fn split_number<'a>(s: &'a [char]) -> (parts: Option<(u32, &'a [char])>)
    ensures
        match parts {
            Some((n, rest)) => number_and_rest(s@) == Some((n, rest@)),
            None => number_and_rest(s@) is None,
        },
{
    match split_once_chars(s, ":") {
        Some((number, rest)) => match read_decimal(number, u32::MAX) {
            Some(n) => Some((n, rest)),
            None => None,
        },
        None => None,
    }
}

/// The method in a text `start:end:signature`.
pub open spec fn method_with_lines(s: Seq<char>) -> Option<ParsedMethodView> {
    match number_and_rest(trim(s)) {
        Some((start_line, rest)) => match number_and_rest(rest) {
            Some((end_line, signature)) => match method_name(signature) {
                Some(name) => Some(ParsedMethodView { name, start_line, end_line }),
                None => None,
            },
            None => None,
        },
        None => None,
    }
}

pub fn parse_method_with_lines(s: &[char]) -> (method: Option<ParsedMethod>)
    ensures
        match method {
            Some(method) => method_with_lines(s@) == Some(method@),
            None => method_with_lines(s@) is None,
        },
{
    match split_number(trim_chars(s)) {
        Some((start_line, rest)) => match split_number(rest) {
            Some((end_line, signature)) => match parse_method_name(signature) {
                Some(name) => Some(ParsedMethod { name, start_line, end_line }),
                None => None,
            },
            None => None,
        },
        None => None,
    }
}

/// A class with one more method.
pub open spec fn with_method(class: ClassView, method: MethodView) -> ClassView {
    ClassView { methods: class.methods.push(method), ..class }
}

/// A class with what a line `original -> obfuscated` says of one member. With
/// a parameter list it is a method, with line numbers or without; else it is
/// a field, named by the last word.
pub open spec fn with_member(class: ClassView, line: Seq<char>) -> ClassView {
    match rsplit_once(line, " -> "@) {
        None => class,
        Some((original, after)) => {
            let obfuscated_name = trim(after);
            match method_with_lines(original) {
                Some(method) => with_method(
                    class,
                    MethodView {
                        original_name: method.name,
                        obfuscated_name,
                        start_line: Some(method.start_line),
                        end_line: Some(method.end_line),
                    },
                ),
                None => match method_name(original) {
                    Some(original_name) => with_method(
                        class,
                        MethodView {
                            original_name,
                            obfuscated_name,
                            start_line: None,
                            end_line: None,
                        },
                    ),
                    None => match last_word(original) {
                        Some(name) => ClassView {
                            fields: class.fields.insert(obfuscated_name, name),
                            ..class
                        },
                        None => class,
                    },
                },
            }
        },
    }
}

pub fn parse_member_line(line: &[char], class: &mut ClassMapping)
    ensures
        final(class)@ == with_member(old(class)@, line@),
{
    let ghost before = class@;
    let (original, obfuscated) = match rsplit_once_chars(line, " -> ") {
        Some((original, after)) => (original, text_of(trim_chars(after))),
        None => {
            return ;
        },
    };
    match parse_method_with_lines(original) {
        Some(method) => {
            class.methods.push(
                MethodMapping {
                    original_name: method.name,
                    obfuscated_name: obfuscated,
                    start_line: Some(method.start_line),
                    end_line: Some(method.end_line),
                },
            );
            assert(class@.methods == with_member(before, line@).methods);
        },
        None => match parse_method_name(original) {
            Some(name) => {
                class.methods.push(
                    MethodMapping {
                        original_name: name,
                        obfuscated_name: obfuscated,
                        start_line: None,
                        end_line: None,
                    },
                );
                assert(class@.methods == with_member(before, line@).methods);
            },
            None => match last_word_chars(original) {
                Some(name) => {
                    class.fields.insert(obfuscated, text_of(name));
                    assert(class@.fields == with_member(before, line@).fields);
                },
                None => {},
            },
        },
    }
}

// ---------------------------------------------------------------------------
// Whole mapping files
// ---------------------------------------------------------------------------

/// What was read up to some line: the finished classes, and the class whose
/// section is open, under its obfuscated name.
pub struct ParseState {
    pub classes: Map<Seq<char>, ClassView>,
    pub open: Option<(Seq<char>, ClassView)>,
}

impl ParseState {
    pub open spec fn empty() -> ParseState {
        ParseState { classes: Map::empty(), open: None }
    }

    /// The finished classes, with the open one among them. Of two sections for
    /// one name the later one counts.
    pub open spec fn closed(self) -> Map<Seq<char>, ClassView> {
        match self.open {
            Some((name, class)) => self.classes.insert(name, class),
            None => self.classes,
        }
    }
}

/// A line that starts a new section: neither empty, nor a comment, nor indented.
pub open spec fn is_section_line(line: Seq<char>) -> bool {
    let line = trim_end(line);
    line.len() > 0 && line[0] != '#' && line[0] != ' ' && line[0] != '\t'
}

/// What is known after one more line.
pub open spec fn parse_step(state: ParseState, raw: Seq<char>) -> ParseState {
    let line = trim_end(raw);
    if line.len() == 0 {
        state
    } else if line[0] == '#' {
        match state.open {
            Some((name, class)) => ParseState {
                open: Some((name, with_file_name(class, file_name_in(line)))),
                ..state
            },
            None => state,
        }
    } else if line[0] != ' ' && line[0] != '\t' {
        ParseState {
            classes: state.closed(),
            open: match class_line(line) {
                Some((original, obfuscated)) => Some((obfuscated, new_class(original))),
                None => None,
            },
        }
    } else {
        match state.open {
            Some((name, class)) => ParseState {
                open: Some((name, with_member(class, trim(line)))),
                ..state
            },
            None => state,
        }
    }
}

/// What is known after a run of lines.
pub open spec fn parse_lines(state: ParseState, ls: Seq<Seq<char>>) -> ParseState
    decreases ls.len(),
{
    if ls.len() == 0 {
        state
    } else {
        parse_step(parse_lines(state, ls.drop_last()), ls.last())
    }
}

/// The classes of a mapping file, by obfuscated name.
pub open spec fn parse_mapping(input: Seq<char>) -> Map<Seq<char>, ClassView> {
    parse_lines(ParseState::empty(), lines(input)).closed()
}

/// What two mappings say together.
pub open spec fn merge_mappings(
    first: Map<Seq<char>, ClassView>,
    second: Map<Seq<char>, ClassView>,
) -> Map<Seq<char>, ClassView> {
    Map::new(
        |name: Seq<char>| first.contains_key(name) || second.contains_key(name),
        |name: Seq<char>|
            if !second.contains_key(name) {
                first[name]
            } else if !first.contains_key(name) {
                second[name]
            } else {
                merge_class(first[name], second[name])
            },
    )
}

/// The classes of several mapping files, read in order.
pub open spec fn parse_mappings(inputs: Seq<Seq<char>>) -> Map<Seq<char>, ClassView>
    decreases inputs.len(),
{
    if inputs.len() == 0 {
        Map::empty()
    } else {
        merge_mappings(parse_mappings(inputs.drop_last()), parse_mapping(inputs.last()))
    }
}

/// A reader part of the way through a mapping file.
struct Reader {
    table: ClassTable,
    open: Option<(String, ClassMapping)>,
}

impl View for Reader {
    type V = ParseState;

    closed spec fn view(&self) -> ParseState {
        ParseState {
            classes: self.table@,
            open: match self.open {
                Some((name, class)) => Some((name@, class@)),
                None => None,
            },
        }
    }
}

impl Reader {
    /// Ends the section that is open.
    fn close(self) -> (table: ClassTable)
        ensures
            table@ == self@.closed(),
    {
        match self.open {
            Some((name, class)) => self.table.insert(name, class),
            None => self.table,
        }
    }

    /// Reads one more line.
    fn step(self, raw: &[char]) -> (reader: Reader)
        ensures
            reader@ == parse_step(self@, raw@),
    {
        let line = trim_end_chars(raw);
        if line.len() == 0 {
            return self;
        }
        if line[0] == '#' {
            return match self.open {
                Some((name, mut class)) => {
                    class.set_file_name(extract_file_name(line));
                    Reader { table: self.table, open: Some((name, class)) }
                },
                None => Reader { table: self.table, open: None },
            };
        }
        if line[0] != ' ' && line[0] != '\t' {
            let table = self.close();
            let open = match parse_class_line(line) {
                Some((original, obfuscated)) => {
                    let class = ClassMapping {
                        original_name: text_of(original),
                        file_name: None,
                        methods: Vec::new(),
                        fields: StringHashMap::new(),
                    };
                    assert(class@.methods == new_class(original@).methods);
                    assert(class@.fields == new_class(original@).fields);
                    Some((text_of(obfuscated), class))
                },
                None => None,
            };
            return Reader { table, open };
        }
        match self.open {
            Some((name, mut class)) => {
                parse_member_line(trim_chars(line), &mut class);
                Reader { table: self.table, open: Some((name, class)) }
            },
            None => Reader { table: self.table, open: None },
        }
    }
}

/// A mapping from obfuscated to original names.
pub struct ProguardMapping {
    pub classes: ClassTable,
}

impl ProguardMapping {
    /// Reads a mapping file. Lines that make no sense are passed over.
    pub fn parse(input: &str) -> (mapping: Result<ProguardMapping, AppError>)
        ensures
            mapping matches Ok(mapping) && mapping.classes@ == parse_mapping(input@),
    {
        let chars = chars_of(input);
        let ls = split_lines(&chars);
        let mut reader = Reader { table: ClassTable::new(), open: None };
        let mut i: usize = 0;
        let ghost all = lines(input@);
        while i < ls.len()
            invariant
                i <= ls@.len(),
                slices_view(ls@) == all,
                reader@ == parse_lines(ParseState::empty(), all.take(i as int)),
            decreases ls@.len() - i,
        {
            assert(all.take(i + 1).drop_last() == all.take(i as int));
            reader = reader.step(ls[i]);
            i += 1;
        }
        assert(all.take(i as int) == all);
        Ok(ProguardMapping { classes: reader.close() })
    }

    /// Reads several mapping files as one mapping.
    pub fn parse_many(inputs: &[&str]) -> (mapping: Result<ProguardMapping, AppError>)
        ensures
            mapping matches Ok(mapping) && mapping.classes@ == parse_mappings(strs_view(inputs@)),
    {
        let mut classes = ClassTable::new();
        let mut i: usize = 0;
        let ghost all = strs_view(inputs@);
        while i < inputs.len()
            invariant
                i <= inputs@.len(),
                all == strs_view(inputs@),
                classes@ == parse_mappings(all.take(i as int)),
            decreases inputs@.len() - i,
        {
            assert(all.take(i + 1).drop_last() == all.take(i as int));
            let mapping = ProguardMapping::parse(inputs[i])?;
            classes = classes.merge_table(mapping.classes);
            i += 1;
        }
        assert(all.take(i as int) == all);
        Ok(ProguardMapping { classes })
    }
}

// ---------------------------------------------------------------------------
// Stack traces
// ---------------------------------------------------------------------------

/// What stands up to the last slash, with it, and what follows.
pub open spec fn container_parts(qualified: Seq<char>) -> (Seq<char>, Seq<char>) {
    match rfind(qualified, "/"@) {
        Some(i) => (qualified.take(i + 1), qualified.skip(i + 1)),
        None => (seq![], qualified),
    }
}

/// Splits the container of a class, such as the archive that it was loaded
/// from, off its qualified name.
pub fn split_container_prefix<'a>(qualified: &'a [char]) -> (parts: (&'a [char], &'a [char]))
    ensures
        (parts.0@, parts.1@) == container_parts(qualified@),
{
    proof {
        reveal_strlit("/");
    }
    let n: usize = qualified.len();
    match rfind_chars(qualified, &chars_of("/")) {
        Some(i) => {
            let before = &qualified[0..i + 1];
            let after = &qualified[i + 1..n];
            (before, after)
        },
        None => {
            let before = &qualified[0..0];
            (before, qualified)
        },
    }
}

/// The line number in a location such as `(File.java:12)`.
pub open spec fn location_line(location: Seq<char>) -> Option<u32> {
    match rsplit_once(trim_end_matches(trim_start_matches(location, '('), ')'), ":"@) {
        Some((_, number)) => match parse_decimal(number, u32::MAX as nat) {
            Some(n) => Some(n as u32),
            None => None,
        },
        None => None,
    }
}

pub fn parse_stacktrace_line_number(location: &[char]) -> (line: Option<u32>)
    ensures
        line == location_line(location@),
{
    match rsplit_once_chars(trim_end_char(trim_start_char(location, '('), ')'), ":") {
        Some((_, number)) => read_decimal(number, u32::MAX),
        None => None,
    }
}

impl MethodView {
    /// The method goes by the given obfuscated name.
    pub open spec fn is_named(self, name: Seq<char>) -> bool {
        self.obfuscated_name == name
    }

    /// The method goes by the given obfuscated name and is known to cover the
    /// given line.
    pub open spec fn covers(self, name: Seq<char>, line: u32) -> bool {
        &&& self.is_named(name)
        &&& self.start_line matches Some(start) && start <= line
        &&& self.end_line matches Some(end) && line <= end
    }
}

/// The first of the methods that a predicate accepts.
pub open spec fn first_method(
    methods: Seq<MethodView>,
    accepts: spec_fn(MethodView) -> bool,
) -> Option<MethodView>
    decreases methods.len(),
{
    if methods.len() == 0 {
        None
    } else if accepts(methods.first()) {
        Some(methods.first())
    } else {
        first_method(methods.drop_first(), accepts)
    }
}

/// The method of a class that an obfuscated name stands for: the first of that
/// name that covers the line, else the first of that name.
pub open spec fn resolved_method(
    class: ClassView,
    name: Seq<char>,
    line: Option<u32>,
) -> Option<MethodView> {
    let by_name = first_method(class.methods, |m: MethodView| m.is_named(name));
    match line {
        Some(line) => match first_method(class.methods, |m: MethodView| m.covers(name, line)) {
            Some(method) => Some(method),
            None => by_name,
        },
        None => by_name,
    }
}

/// What is written for the source file where none is known.
pub open spec fn unknown_source() -> Seq<char> {
    "Unknown Source"@
}

/// A stack frame of a known class, with its original names. The container
/// stays, the source file is the mapping's, and the line number is the one
/// that was given.
pub open spec fn original_frame(
    class: ClassView,
    container: Seq<char>,
    method: Seq<char>,
    location: Seq<char>,
) -> Seq<char> {
    let line = location_line(location);
    let name = match resolved_method(class, method, line) {
        Some(m) => m.original_name,
        None => method,
    };
    let file = match class.file_name {
        Some(file) => file,
        None => unknown_source(),
    };
    let place = match line {
        Some(n) => file + ":"@ + decimal_text(n as nat),
        None => file,
    };
    container + class.original_name + "."@ + name + "("@ + place + ")"@
}

/// The text that stands for `rest` behind the `at ` of a stack frame. It stays
/// as it is unless it names a method of a known class.
pub open spec fn retraced_frame(classes: Map<Seq<char>, ClassView>, rest: Seq<char>) -> Seq<char> {
    match find(rest, "("@) {
        None => rest,
        Some(paren) => {
            let (container, qualified) = container_parts(rest.take(paren));
            match rfind(qualified, "."@) {
                None => rest,
                Some(dot) => {
                    let name = qualified.take(dot);
                    if classes.contains_key(name) {
                        original_frame(
                            classes[name],
                            container,
                            qualified.skip(dot + 1),
                            rest.skip(paren),
                        )
                    } else {
                        rest
                    }
                },
            }
        },
    }
}

/// What stands for a line that names an exception, alone or with a message.
/// It stays as it is unless the exception is a known class.
pub open spec fn retraced_exception(
    classes: Map<Seq<char>, ClassView>,
    line: Seq<char>,
) -> Seq<char> {
    let trimmed = trim_start(line);
    let indent = line.take(line.len() - trimmed.len());
    let (cause, class_and_rest) = match strip_prefix(trimmed, "Caused by: "@) {
        Some(rest) => ("Caused by: "@, rest),
        None => (seq![], trimmed),
    };
    let (class_part, message) = match split_once(class_and_rest, ": "@) {
        Some((class_part, message)) => (class_part, ": "@ + message),
        None => (class_and_rest, seq![]),
    };
    let (container, name) = container_parts(class_part);
    if classes.contains_key(name) {
        indent + cause + container + classes[name].original_name + message
    } else {
        line
    }
}

/// What stands for a line of a stack trace.
pub open spec fn retraced_line(classes: Map<Seq<char>, ClassView>, line: Seq<char>) -> Seq<char> {
    let trimmed = trim_start(line);
    let indent = line.take(line.len() - trimmed.len());
    match strip_prefix(trimmed, "at "@) {
        Some(rest) => indent + "at "@ + retraced_frame(classes, rest),
        None => retraced_exception(classes, line),
    }
}

/// The lines of a stack trace, each retraced, with newlines between them.
pub open spec fn retraced_lines(
    classes: Map<Seq<char>, ClassView>,
    ls: Seq<Seq<char>>,
) -> Seq<char>
    decreases ls.len(),
{
    if ls.len() == 0 {
        seq![]
    } else if ls.len() == 1 {
        retraced_line(classes, ls[0])
    } else {
        retraced_lines(classes, ls.drop_last()) + "\n"@ + retraced_line(classes, ls.last())
    }
}

/// What stands for a whole stack trace. A newline at its end stays.
pub open spec fn retraced(classes: Map<Seq<char>, ClassView>, stacktrace: Seq<char>) -> Seq<char> {
    retraced_lines(classes, lines(stacktrace)) + if stacktrace.len() > 0 && stacktrace.last()
        == '\n' {
        "\n"@
    } else {
        seq![]
    }
}

impl MethodMapping {
    fn covers(&self, name: &str, line: u32) -> (covers: bool)
        ensures
            covers == self@.covers(name@, line),
    {
        same_text(self.obfuscated_name.as_str(), name) && match (self.start_line, self.end_line) {
            (Some(start), Some(end)) => start <= line && line <= end,
            _ => false,
        }
    }
}

/// The first method that goes by a name and, where a line is given, covers it.
fn find_method<'a>(methods: &'a Vec<MethodMapping>, name: &str, line: Option<u32>) -> (found:
    Option<&'a MethodMapping>)
    ensures
        ({
            let expected = match line {
                Some(line) => first_method(
                    methods_view(methods@),
                    |m: MethodView| m.covers(name@, line),
                ),
                None => first_method(methods_view(methods@), |m: MethodView| m.is_named(name@)),
            };
            match found {
                Some(method) => expected == Some(method@),
                None => expected is None,
            }
        }),
{
    let ghost all = methods_view(methods@);
    let ghost accepts = match line {
        Some(line) => |m: MethodView| m.covers(name@, line),
        None => |m: MethodView| m.is_named(name@),
    };
    let mut i: usize = 0;
    assert(all.skip(0) == all);
    while i < methods.len()
        invariant
            i <= methods@.len(),
            all == methods_view(methods@),
            line matches Some(line) ==> accepts == (|m: MethodView| m.covers(name@, line)),
            line is None ==> accepts == (|m: MethodView| m.is_named(name@)),
            first_method(all, accepts) == first_method(all.skip(i as int), accepts),
        decreases methods@.len() - i,
    {
        let method = &methods[i];
        let accepted = match line {
            Some(line) => method.covers(name, line),
            None => same_text(method.obfuscated_name.as_str(), name),
        };
        if accepted {
            return Some(method);
        }
        assert(all.skip(i as int).drop_first() == all.skip(i + 1));
        i += 1;
    }
    None
}

impl ProguardMapping {
    /// The method of a class that an obfuscated name stands for.
    pub fn resolve_method<'a>(
        &'a self,
        class: &'a ClassMapping,
        obf_method: &str,
        line: Option<u32>,
    ) -> (found: Option<&'a MethodMapping>)
        ensures
            match found {
                Some(method) => resolved_method(class@, obf_method@, line) == Some(method@),
                None => resolved_method(class@, obf_method@, line) is None,
            },
    {
        if line.is_some() {
            let covering = find_method(&class.methods, obf_method, line);
            if covering.is_some() {
                return covering;
            }
        }
        find_method(&class.methods, obf_method, None)
    }
}

impl ProguardMapping {
    /// Writes what stands for `rest` in a stack frame `at rest`.
    pub fn retrace_stack_frame(&self, prefix: &[char], rest: &[char], out: &mut String)
        ensures
            final(out)@ == old(out)@ + prefix@ + "at "@ + retraced_frame(self.classes@, rest@),
    {
        push_chars(out, prefix);
        out.append("at ");
        let n: usize = rest.len();
        let paren: usize = match find_chars(rest, &chars_of("(")) {
            Some(i) => i,
            None => {
                push_chars(out, rest);
                return ;
            },
        };
        let before = &rest[0..paren];
        let location = &rest[paren..n];
        let (container, qualified) = split_container_prefix(before);
        proof {
            reveal_strlit(".");
        }
        let m: usize = qualified.len();
        let dot: usize = match rfind_chars(qualified, &chars_of(".")) {
            Some(i) => i,
            None => {
                push_chars(out, rest);
                return ;
            },
        };
        let name = &qualified[0..dot];
        let obf_method = &qualified[dot + 1..m];
        match self.classes.get(text_of(name).as_str()) {
            Some(class) => self.push_frame(class, container, obf_method, location, out),
            None => push_chars(out, rest),
        }
    }

    /// Writes a stack frame of a known class.
    fn push_frame(
        &self,
        class: &ClassMapping,
        container: &[char],
        obf_method: &[char],
        location: &[char],
        out: &mut String,
    )
        ensures
            final(out)@ == old(out)@ + original_frame(
                class@,
                container@,
                obf_method@,
                location@,
            ),
    {
        let line = parse_stacktrace_line_number(location);
        push_chars(out, container);
        out.append(class.original_name.as_str());
        out.append(".");
        match self.resolve_method(class, text_of(obf_method).as_str(), line) {
            Some(method) => out.append(method.original_name.as_str()),
            None => push_chars(out, obf_method),
        }
        out.append("(");
        match &class.file_name {
            Some(file) => out.append(file.as_str()),
            None => out.append("Unknown Source"),
        }
        match line {
            Some(n) => {
                out.append(":");
                push_decimal(out, n);
            },
            None => {},
        }
        out.append(")");
    }

    /// Writes what stands for a line that may name an exception.
    pub fn retrace_exception_line_into(&self, line: &[char], out: &mut String)
        ensures
            final(out)@ == old(out)@ + retraced_exception(self.classes@, line@),
    {
        let trimmed = trim_start_chars(line);
        let n: usize = line.len();
        let indent = &line[0..n - trimmed.len()];
        let (is_cause, class_and_rest) = match strip_prefix_chars(trimmed, "Caused by: ") {
            Some(rest) => (true, rest),
            None => (false, trimmed),
        };
        let (class_part, message) = match split_once_chars(class_and_rest, ": ") {
            Some((class_part, message)) => (class_part, Some(message)),
            None => (class_and_rest, None),
        };
        let (container, name) = split_container_prefix(class_part);
        match self.classes.get(text_of(name).as_str()) {
            Some(class) => {
                push_chars(out, indent);
                if is_cause {
                    out.append("Caused by: ");
                }
                push_chars(out, container);
                out.append(class.original_name.as_str());
                match message {
                    Some(message) => {
                        out.append(": ");
                        push_chars(out, message);
                    },
                    None => {},
                }
            },
            None => push_chars(out, line),
        }
    }

    /// Writes what stands for a line of a stack trace.
    pub fn retrace_line_into(&self, line: &[char], out: &mut String)
        ensures
            final(out)@ == old(out)@ + retraced_line(self.classes@, line@),
    {
        let trimmed = trim_start_chars(line);
        let n: usize = line.len();
        let indent = &line[0..n - trimmed.len()];
        match strip_prefix_chars(trimmed, "at ") {
            Some(rest) => {
                self.retrace_stack_frame(indent, rest, out);
            },
            None => self.retrace_exception_line_into(line, out),
        }
    }

    /// The stack trace with the original names.
    pub fn retrace(&self, stacktrace: &str) -> (out: String)
        ensures
            out@ == retraced(self.classes@, stacktrace@),
    {
        let chars = chars_of(stacktrace);
        let ls = split_lines(&chars);
        let mut out = String::new();
        let mut i: usize = 0;
        let ghost all = lines(stacktrace@);
        while i < ls.len()
            invariant
                i <= ls@.len(),
                slices_view(ls@) == all,
                out@ == retraced_lines(self.classes@, all.take(i as int)),
            decreases ls@.len() - i,
        {
            assert(all.take(i + 1).drop_last() == all.take(i as int));
            if i > 0 {
                out.append("\n");
            }
            self.retrace_line_into(ls[i], &mut out);
            i += 1;
        }
        assert(all.take(i as int) == all);
        if chars.len() > 0 && chars[chars.len() - 1] == '\n' {
            out.append("\n");
        }
        out
    }

    /// What an obfuscated class, method and line stand for.
    pub fn resolve(
        &self,
        class_name: &str,
        method_name: Option<&str>,
        line: Option<u32>,
    ) -> (position: Result<OriginalPosition, AppError>)
        ensures
            match position {
                Ok(position) => self.classes@.contains_key(class_name@) && position@
                    == resolved_position(self.classes@[class_name@], str_view(method_name), line),
                Err(error) => !self.classes@.contains_key(class_name@) && error is NotFound,
            },
    {
        let class = match self.classes.get(class_name) {
            Some(class) => class,
            None => {
                return Err(AppError::NotFound);
            },
        };
        let method = match method_name {
            Some(method) => self.resolve_method(class, method, line),
            None => None,
        };
        Ok(
            OriginalPosition {
                source: class.original_name.clone(),
                line: match line {
                    Some(line) => line,
                    None => 0,
                },
                column: 0,
                name: match method {
                    Some(method) => Some(method.original_name.clone()),
                    None => None,
                },
            },
        )
    }
}

/// Where a class, a method of it and a line come from.
pub open spec fn resolved_position(
    class: ClassView,
    method: Option<Seq<char>>,
    line: Option<u32>,
) -> PositionView {
    PositionView {
        source: class.original_name,
        line: match line {
            Some(line) => line,
            None => 0,
        },
        column: 0,
        name: match method {
            Some(method) => match resolved_method(class, method, line) {
                Some(m) => Some(m.original_name),
                None => None,
            },
            None => None,
        },
    }
}

// ---------------------------------------------------------------------------
// Stored mapping files
// ---------------------------------------------------------------------------

/// The first of several files that is no UTF-8.
pub open spec fn first_invalid(files: Seq<Seq<u8>>) -> Option<Seq<u8>>
    decreases files.len(),
{
    if files.len() == 0 {
        None
    } else if !valid_utf8(files.first()) {
        Some(files.first())
    } else {
        first_invalid(files.drop_first())
    }
}

/// What stands for a stack trace under the mapping that several files hold
/// together. All of them must be UTF-8.
pub open spec fn retraced_with(files: Seq<Seq<u8>>, stacktrace: Seq<char>) -> Result<
    Seq<char>,
    ErrorView,
> {
    match first_invalid(files) {
        Some(file) => Err(
            ErrorView::BadRequest("invalid proguard mapping: "@ + utf8_error_text(file)),
        ),
        None => Ok(
            retraced(
                parse_mappings(files.map_values(|file: Seq<u8>| decode_utf8(file))),
                stacktrace,
            ),
        ),
    }
}

/// The error for a mapping file that cannot be read.
pub fn invalid_mapping(reason: &str) -> (error: AppError)
    ensures
        error@ == ErrorView::BadRequest("invalid proguard mapping: "@ + reason@),
{
    AppError::BadRequest(joined("invalid proguard mapping: ", reason))
}

/// The stack trace with the original names, by mapping files that are read as
/// one mapping.
pub fn retrace_stacktrace(mapping_parts: &[&[u8]], stacktrace: &str) -> (out: Result<
    String,
    AppError,
>)
    ensures
        text_result(out) == retraced_with(
            mapping_parts@.map_values(|part: &[u8]| part@),
            stacktrace@,
        ),
{
    let ghost files = mapping_parts@.map_values(|part: &[u8]| part@);
    let ghost texts = files.map_values(|file: Seq<u8>| decode_utf8(file));
    let mut contents: Vec<&str> = Vec::new();
    let mut i: usize = 0;
    assert(files.skip(0) == files);
    while i < mapping_parts.len()
        invariant
            i <= mapping_parts@.len(),
            files == mapping_parts@.map_values(|part: &[u8]| part@),
            texts == files.map_values(|file: Seq<u8>| decode_utf8(file)),
            first_invalid(files) == first_invalid(files.skip(i as int)),
            strs_view(contents@) == texts.take(i as int),
        decreases mapping_parts@.len() - i,
    {
        let ghost so_far = strs_view(contents@);
        match read_utf8(mapping_parts[i]) {
            Ok(content) => {
                contents.push(content);
                assert(strs_view(contents@) == so_far.push(content@));
            },
            Err(reason) => {
                return Err(invalid_mapping(reason.as_str()));
            },
        }
        assert(files.skip(i as int).drop_first() == files.skip(i + 1));
        i += 1;
    }
    assert(texts.take(i as int) == texts);
    match ProguardMapping::parse_many(contents.as_slice()) {
        Ok(mapping) => Ok(mapping.retrace(stacktrace)),
        Err(error) => Err(error),
    }
}

/// Where the mapping files of a build are stored.
pub open spec fn mapping_prefix(project_id: ProjectId, build_id: Seq<char>) -> Seq<char> {
    object_key(project_id, build_id, "proguard"@)
}

/// Where a mapping file of a build is stored.
pub open spec fn mapping_key(
    project_id: ProjectId,
    build_id: Seq<char>,
    file_name: Seq<char>,
) -> Seq<char> {
    object_key(project_id, build_id, "proguard"@ + "/"@ + file_name)
}

pub fn proguard_s3_prefix(project_id: ProjectId, build_id: &str) -> (prefix: String)
    ensures
        prefix@ == mapping_prefix(project_id, build_id@),
{
    s3_key(project_id, build_id, "proguard")
}

pub fn proguard_s3_key(project_id: ProjectId, build_id: &str, file_name: &str) -> (key: String)
    ensures
        key@ == mapping_key(project_id, build_id@, file_name@),
{
    let dir = joined("proguard", "/");
    s3_key(project_id, build_id, joined(dir.as_str(), file_name).as_str())
}

/// The object to store next when mapping files are taken in, each with its
/// file name, and `done` of them are stored.
pub fn ingest(
    storage: &Storage,
    project_id: ProjectId,
    build_id: &str,
    mappings: &[(String, String)],
    done: usize,
) -> (next: Result<Option<PutObject>, AppError>)
    ensures
        if done < mappings@.len() {
            let (file_name, content) = mappings@[done as int];
            put_next(
                *storage,
                mapping_key(project_id, build_id@, file_name@),
                encode_utf8(content@),
                next,
            )
        } else {
            next matches Ok(None)
        },
{
    if done >= mappings.len() {
        return Ok(None);
    }
    let entry = &mappings[done];
    let key = proguard_s3_key(project_id, build_id, entry.0.as_str());
    match storage.put(key.as_str(), entry.1.as_str().as_bytes()) {
        Ok(object) => Ok(Some(object)),
        Err(error) => Err(error),
    }
}

/// The mapping files of a build are found under its prefix.
pub proof fn law_mapping_key_under_prefix(
    project_id: ProjectId,
    build_id: Seq<char>,
    file_name: Seq<char>,
)
    ensures
        mapping_prefix(project_id, build_id).is_prefix_of(
            mapping_key(project_id, build_id, file_name),
        ),
{
}

} // verus!

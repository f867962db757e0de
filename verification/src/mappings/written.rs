//! Mapping files and stack traces as they are written, and what is read out of
//! them.

use vstd::prelude::*;

use crate::decimal::{
    all_digits, decimal_text, law_decimal_round_trip, lemma_decimal_digits, parse_decimal,
};
use crate::mappings::proguard::{
    class_line, container_parts, file_name_in, first_method, json_string_member, location_line,
    method_name, method_with_lines, new_class, number_and_rest, original_frame, parse_lines,
    parse_mapping, parse_step, resolved_method, resolved_position, retraced, retraced_exception,
    retraced_frame, retraced_line, retraced_lines, with_file_name, with_member, ClassView,
    MethodView, ParseState, ParsedMethodView,
};
use crate::mappings::retracing::{
    lemma_parse_lines_append, lemma_retraced_lines_append, lemma_sections_follow,
};
use crate::text::{
    find, is_space, law_last_word, law_lines_end_at_newlines, law_split_is_undone_by_joining,
    lemma_find_first, lemma_find_is, lemma_lines_append, lemma_rfind_is, lemma_rfind_last,
    lemma_rsplit_once_at, lemma_split_once_at, lemma_trim_end_of, lemma_trim_end_prefix,
    lemma_trim_start_of, lines, occurs_at, rfind, rsplit_once, split_once, strip_prefix, trim,
    trim_end, trim_end_matches, trim_start, trim_start_matches,
};

verus! {

// ---------------------------------------------------------------------------
// Texts
// ---------------------------------------------------------------------------

/// A text without white space in it, and not empty.
pub open spec fn is_word(s: Seq<char>) -> bool {
    s.len() > 0 && forall|i: int| 0 <= i < s.len() ==> !is_space(#[trigger] s[i])
}

/// A text of one line that does not start with white space, and is not empty.
pub open spec fn is_text(s: Seq<char>) -> bool {
    s.len() > 0 && !is_space(s[0]) && !s.contains('\n')
}

/// White space that can stand at the end of a line.
pub open spec fn is_margin(s: Seq<char>) -> bool {
    &&& forall|i: int| 0 <= i < s.len() ==> is_space(#[trigger] s[i])
    &&& is_plain_line(s)
}

/// Lines, each with a newline behind it.
pub open spec fn written(ls: Seq<Seq<char>>) -> Seq<char>
    decreases ls.len(),
{
    if ls.len() == 0 {
        seq![]
    } else {
        written(ls.drop_last()) + ls.last() + seq!['\n']
    }
}

/// A line that is read as it is written: without a newline in it, and without a
/// carriage return at its end.
pub open spec fn is_plain_line(line: Seq<char>) -> bool {
    !line.contains('\n') && (line.len() > 0 ==> line.last() != '\r')
}

proof fn lemma_written_lines(ls: Seq<Seq<char>>)
    requires
        forall|i: int| 0 <= i < ls.len() ==> is_plain_line(#[trigger] ls[i]),
    ensures
        lines(written(ls)) == ls,
        written(ls).len() > 0 ==> written(ls).last() == '\n',
        ls.len() > 0 ==> written(ls).len() > 0,
    decreases ls.len(),
{
    if ls.len() > 0 {
        let front = ls.drop_last();
        let last = ls.last();
        assert(last == ls[ls.len() - 1]);
        lemma_written_lines(front);
        let tail = last + seq!['\n'];
        assert(written(ls) =~= written(front) + tail);
        lemma_lines_append(written(front), tail);
        law_lines_end_at_newlines(last, seq![]);
        assert(tail + Seq::<char>::empty() =~= tail);
        assert(lines(tail) =~= seq![last]);
        assert(ls =~= front + seq![last]);
    } else {
        law_lines_end_at_newlines(seq![], seq![]);
        assert(ls =~= Seq::<Seq<char>>::empty());
    }
}

/// A word has no white space around it to be trimmed away.
proof fn lemma_trim_word(s: Seq<char>)
    requires
        s.len() > 0,
        !is_space(s.first()),
        !is_space(s.last()),
    ensures
        trim(s) == s,
        trim_start(s) == s,
        trim_end(s) == s,
{
    lemma_trim_start_of(seq![], s);
    lemma_trim_end_of(s, seq![]);
    assert(Seq::<char>::empty() + s =~= s);
    assert(s + Seq::<char>::empty() =~= s);
}

/// Trimming the end goes no further than what is not white space.
proof fn lemma_trim_end_behind(a: Seq<char>, b: Seq<char>)
    requires
        a.len() > 0,
        !is_space(a.last()),
    ensures
        trim_end(a + b) == a + trim_end(b),
    decreases b.len(),
{
    if b.len() > 0 && is_space(b.last()) {
        assert((a + b).drop_last() =~= a + b.drop_last());
        assert((a + b).last() == b.last());
        lemma_trim_end_behind(a, b.drop_last());
    } else if b.len() > 0 {
        assert((a + b).last() == b.last());
    } else {
        assert(a + b =~= a);
        lemma_trim_end_of(a, seq![]);
        assert(trim_end(b) =~= b);
    }
}

/// The first of a character is found where none stands before it.
proof fn lemma_find_char(before: Seq<char>, c: char, after: Seq<char>)
    requires
        !before.contains(c),
    ensures
        find(before + seq![c] + after, seq![c]) == Some(before.len() as int),
{
    let s = before + seq![c] + after;
    let n = before.len() as int;
    assert(s.subrange(n, n + 1) =~= seq![c]);
    assert forall|j: int| 0 <= j < n implies !#[trigger] occurs_at(s, seq![c], j) by {
        assert(s.subrange(j, j + 1)[0] == before[j]);
    }
    lemma_find_is(s, seq![c], n);
}

/// The last of a character is found where none stands behind it.
proof fn lemma_rfind_char(before: Seq<char>, c: char, after: Seq<char>)
    requires
        !after.contains(c),
    ensures
        rfind(before + seq![c] + after, seq![c]) == Some(before.len() as int),
{
    let s = before + seq![c] + after;
    let n = before.len() as int;
    assert(s.subrange(n, n + 1) =~= seq![c]);
    assert forall|j: int| n < j <= s.len() implies !#[trigger] occurs_at(s, seq![c], j) by {
        if j < s.len() {
            assert(s.subrange(j, j + 1)[0] == after[j - n - 1]);
        }
    }
    lemma_rfind_is(s, seq![c], n);
}

/// A character that a text does not have is not found in it.
proof fn lemma_char_not_found(s: Seq<char>, c: char)
    requires
        !s.contains(c),
    ensures
        find(s, seq![c]) is None,
        rfind(s, seq![c]) is None,
{
    lemma_find_first(s, seq![c]);
    lemma_rfind_last(s, seq![c]);
    if let Some(i) = find(s, seq![c]) {
        assert(s.subrange(i, i + 1)[0] == s[i]);
    }
    if let Some(i) = rfind(s, seq![c]) {
        assert(s.subrange(i, i + 1)[0] == s[i]);
    }
}

proof fn lemma_literals()
    ensures
        " -> "@ == seq![' ', '-', '>', ' '],
        ":"@ == seq![':'],
        "("@ == seq!['('],
        ")"@ == seq![')'],
        " "@ == seq![' '],
        "."@ == seq!['.'],
        "/"@ == seq!['/'],
        "{"@ == seq!['{'],
        "at "@ == seq!['a', 't', ' '],
        "\n"@ == seq!['\n'],
        ": "@ == seq![':', ' '],
{
    reveal_strlit(" -> ");
    reveal_strlit(":");
    reveal_strlit("(");
    reveal_strlit(")");
    reveal_strlit(" ");
    reveal_strlit(".");
    reveal_strlit("/");
    reveal_strlit("{");
    reveal_strlit("at ");
    reveal_strlit("\n");
    reveal_strlit(": ");
    assert(" -> "@ =~= seq![' ', '-', '>', ' ']);
    assert(":"@ =~= seq![':']);
    assert("("@ =~= seq!['(']);
    assert(")"@ =~= seq![')']);
    assert(" "@ =~= seq![' ']);
    assert("."@ =~= seq!['.']);
    assert("/"@ =~= seq!['/']);
    assert("{"@ =~= seq!['{']);
    assert("at "@ =~= seq!['a', 't', ' ']);
    assert("\n"@ =~= seq!['\n']);
    assert(": "@ =~= seq![':', ' ']);
}

// ---------------------------------------------------------------------------
// Sections of mapping files
// ---------------------------------------------------------------------------

/// A member of a class as a mapping file names it.
pub enum Member {
    /// `start:end:kind name(rest -> obfuscated`, with lines or without. The
    /// rest has the parameters, and what follows them.
    Method {
        covered: Option<(u32, u32)>,
        kind: Seq<char>,
        name: Seq<char>,
        rest: Seq<char>,
        obfuscated: Seq<char>,
    },
    /// `kind name -> obfuscated`.
    Field { kind: Seq<char>, name: Seq<char>, obfuscated: Seq<char> },
}

impl Member {
    /// The parts of the member are such as mapping files have.
    pub open spec fn is_proper(self) -> bool {
        match self {
            Member::Method { covered: _, kind, name, rest, obfuscated } => {
                &&& is_text(kind) && !kind.contains('(') && !kind.contains(':')
                &&& is_word(name) && !name.contains('(') && !name.contains(':')
                &&& !rest.contains('\n')
                &&& is_word(obfuscated)
            },
            Member::Field { kind, name, obfuscated } => {
                &&& is_text(kind) && !kind.contains('(') && !kind.contains(':')
                &&& is_word(name) && !name.contains('(') && !name.contains(':')
                &&& is_word(obfuscated)
            },
        }
    }

    /// What stands before the arrow.
    pub open spec fn original(self) -> Seq<char> {
        match self {
            Member::Method { covered, kind, name, rest, obfuscated: _ } => match covered {
                Some((start, end)) => decimal_text(start as nat) + ":"@ + decimal_text(end as nat)
                    + ":"@ + kind + " "@ + name + "("@ + rest,
                None => kind + " "@ + name + "("@ + rest,
            },
            Member::Field { kind, name, obfuscated: _ } => kind + " "@ + name,
        }
    }

    pub open spec fn obfuscated(self) -> Seq<char> {
        match self {
            Member::Method { obfuscated, .. } => obfuscated,
            Member::Field { obfuscated, .. } => obfuscated,
        }
    }

    /// The member's line, between white space.
    pub open spec fn line(self, indent: Seq<char>, margin: Seq<char>) -> Seq<char> {
        indent + self.original() + " -> "@ + self.obfuscated() + margin
    }

    /// The method that the member is, if it is one.
    pub open spec fn method(self) -> Option<MethodView> {
        match self {
            Member::Method { covered, name, obfuscated, .. } => Some(
                MethodView {
                    original_name: name,
                    obfuscated_name: obfuscated,
                    start_line: match covered {
                        Some((start, _)) => Some(start),
                        None => None,
                    },
                    end_line: match covered {
                        Some((_, end)) => Some(end),
                        None => None,
                    },
                },
            ),
            Member::Field { .. } => None,
        }
    }
}

/// The methods among members, in their order.
pub open spec fn methods_of(members: Seq<Member>) -> Seq<MethodView>
    decreases members.len(),
{
    if members.len() == 0 {
        seq![]
    } else {
        let before = methods_of(members.drop_last());
        match members.last().method() {
            Some(method) => before.push(method),
            None => before,
        }
    }
}

/// The fields among members, original names by obfuscated ones. Of two with one
/// obfuscated name the later one counts.
pub open spec fn fields_of(members: Seq<Member>) -> Map<Seq<char>, Seq<char>>
    decreases members.len(),
{
    if members.len() == 0 {
        Map::empty()
    } else {
        let before = fields_of(members.drop_last());
        match members.last() {
            Member::Method { .. } => before,
            Member::Field { kind: _, name, obfuscated } => before.insert(obfuscated, name),
        }
    }
}

/// The section of a class in a mapping file.
pub struct Section {
    pub original: Seq<char>,
    pub obfuscated: Seq<char>,
    /// The JSON of each comment; one of them names the source file.
    pub comments: Seq<Seq<char>>,
    pub members: Seq<Member>,
    /// What stands before the members.
    pub indent: Seq<char>,
    /// What stands behind each line.
    pub margin: Seq<char>,
}

/// The JSON in a comment.
pub open spec fn is_json_text(json: Seq<char>) -> bool {
    json.len() > 0 && json[0] == '{' && !is_space(json.last()) && !json.contains('\n')
}

/// The source file that comments name. Of several the last counts.
pub open spec fn named_file(comments: Seq<Seq<char>>) -> Option<Seq<char>>
    decreases comments.len(),
{
    if comments.len() == 0 {
        None
    } else {
        match json_string_member(comments.last(), "fileName"@) {
            Some(file) => Some(file),
            None => named_file(comments.drop_last()),
        }
    }
}

impl Section {
    /// The parts of the section are such as mapping files have.
    pub open spec fn is_proper(self) -> bool {
        &&& is_word(self.original) && self.original[0] != '#'
        &&& is_word(self.obfuscated)
        &&& forall|i: int|
            0 <= i < self.comments.len() ==> is_json_text(#[trigger] self.comments[i])
        &&& forall|i: int| 0 <= i < self.members.len() ==> (#[trigger] self.members[i]).is_proper()
        &&& is_margin(self.indent)
        &&& self.indent.len() > 0 && (self.indent[0] == ' ' || self.indent[0] == '\t')
        &&& is_margin(self.margin)
    }

    /// The line that starts the section.
    pub open spec fn first_line(self) -> Seq<char> {
        self.original + " -> "@ + self.obfuscated + ":"@ + self.margin
    }

    /// The lines with comments.
    pub open spec fn comment_lines(self) -> Seq<Seq<char>> {
        self.comments.map_values(|json: Seq<char>| "# "@ + json + self.margin)
    }

    /// The lines with members.
    pub open spec fn member_lines(self) -> Seq<Seq<char>> {
        self.members.map_values(|member: Member| member.line(self.indent, self.margin))
    }

    /// The lines of the section: the class, the comments, and the members.
    pub open spec fn lines(self) -> Seq<Seq<char>> {
        seq![self.first_line()] + self.comment_lines() + self.member_lines()
    }
}

/// An arrow splits a text at its last place where a word follows.
proof fn lemma_split_at_arrow(before: Seq<char>, word: Seq<char>)
    requires
        is_word(word),
    ensures
        rsplit_once(before + " -> "@ + word, " -> "@) == Some((before, word)),
{
    lemma_literals();
    let s = before + " -> "@ + word;
    assert forall|j: int|
        before.len() < j && j + 4 <= before.len() + 4 + word.len() implies #[trigger] s.subrange(
        j,
        j + 4,
    ) != " -> "@ by {
        let k = j + 3 - before.len() - 4;
        assert(s.subrange(j, j + 4)[3] == s[j + 3]);
        assert(s[j + 3] == word[k]);
        assert(is_space(' '));
    }
    lemma_rsplit_once_at(before, " -> "@, word);
}

/// The name of a method stands between the last space before the parameters
/// and these.
proof fn lemma_method_name(kind: Seq<char>, name: Seq<char>, rest: Seq<char>)
    requires
        !kind.contains('('),
        is_word(name),
        !name.contains('('),
    ensures
        method_name(kind + " "@ + name + "("@ + rest) == Some(name),
{
    lemma_literals();
    let before = kind + " "@ + name;
    assert(!before.contains('(')) by {
        if before.contains('(') {
            let k = choose|k: int| 0 <= k < before.len() && before[k] == '(';
            if k < kind.len() {
                assert(kind[k] == '(');
            } else if k > kind.len() {
                assert(name[k - kind.len() - 1] == '(');
            }
        }
    }
    lemma_find_char(before, '(', rest);
    let s = before + "("@ + rest;
    assert(s.take(before.len() as int) =~= before);
    assert(!name.contains(' ')) by {
        assert(is_space(' '));
    }
    lemma_rfind_char(kind, ' ', name);
    assert(before.skip(kind.len() as int + 1) =~= name);
}

proof fn lemma_number_and_rest(n: u32, rest: Seq<char>)
    ensures
        number_and_rest(decimal_text(n as nat) + ":"@ + rest) == Some((n, rest)),
{
    lemma_literals();
    lemma_decimal_digits(n as nat);
    let digits = decimal_text(n as nat);
    assert(!digits.contains(':'));
    lemma_split_once_at(digits, ':', rest);
    law_decimal_round_trip(n as nat, u32::MAX as nat);
}

/// A signature without numbers before it has no lines.
proof fn lemma_no_lines(kind: Seq<char>, name: Seq<char>, rest: Seq<char>)
    requires
        is_text(kind),
        !kind.contains(':'),
        is_word(name),
        !name.contains(':'),
    ensures
        method_with_lines(kind + " "@ + name + "("@ + rest) is None,
{
    lemma_literals();
    let head = kind + " "@ + name + "("@;
    assert(!is_space('('));
    assert(head.last() == '(');
    let s = head + rest;
    assert(s.first() == kind[0]);
    lemma_trim_start_of(seq![], s);
    assert(Seq::<char>::empty() + s =~= s);
    lemma_trim_end_behind(head, rest);
    let trimmed = head + trim_end(rest);
    assert(trim(s) == trimmed);
    law_split_is_undone_by_joining(trimmed, ":"@);
    if let Some((number, after)) = split_once(trimmed, ":"@) {
        if number.len() < head.len() {
            let k = number.len() as int;
            assert(trimmed[k] == ':');
            assert(head[k] == ':');
            if k < kind.len() {
                assert(kind[k] == ':');
            } else if k > kind.len() && k < head.len() - 1 {
                assert(name[k - kind.len() - 1] == ':');
            }
        }
        let k = head.len() - 1;
        assert(number[k] == trimmed[k]);
        assert(number[k] == '(');
        let digits = crate::decimal::without_plus(number);
        let i = if digits.len() < number.len() {
            k - 1
        } else {
            k
        };
        assert(digits[i] == '(');
        assert(!all_digits(digits));
    }
}

/// A signature with numbers before it has the lines that these are.
proof fn lemma_lines_are_read(
    start: u32,
    end: u32,
    kind: Seq<char>,
    name: Seq<char>,
    rest: Seq<char>,
)
    requires
        !kind.contains('('),
        is_word(name),
        !name.contains('('),
    ensures
        method_with_lines(
            decimal_text(start as nat) + ":"@ + decimal_text(end as nat) + ":"@ + kind + " "@
                + name + "("@ + rest,
        ) == Some(ParsedMethodView { name, start_line: start, end_line: end }),
{
    lemma_literals();
    let (a, b) = (decimal_text(start as nat), decimal_text(end as nat));
    lemma_decimal_digits(start as nat);
    let head = a + ":"@ + b + ":"@ + kind + " "@ + name + "("@;
    let s = head + rest;
    assert(head.last() == '(');
    assert(s.first() == a[0]);
    lemma_trim_start_of(seq![], s);
    assert(Seq::<char>::empty() + s =~= s);
    lemma_trim_end_behind(head, rest);
    let shorter = kind + " "@ + name + "("@ + trim_end(rest);
    let behind = b + ":"@ + shorter;
    assert(trim(s) =~= a + ":"@ + behind);
    lemma_number_and_rest(start, behind);
    lemma_number_and_rest(end, shorter);
    lemma_method_name(kind, name, trim_end(rest));
}

/// What the line of a member adds to a class.
#[verifier::rlimit(40)]
proof fn lemma_member_is_read(class: ClassView, member: Member)
    requires
        member.is_proper(),
    ensures
        with_member(class, member.original() + " -> "@ + member.obfuscated()) == match member {
            Member::Method { covered, name, obfuscated, .. } => ClassView {
                methods: class.methods.push(
                    MethodView {
                        original_name: name,
                        obfuscated_name: obfuscated,
                        start_line: match covered {
                            Some((start, _)) => Some(start),
                            None => None,
                        },
                        end_line: match covered {
                            Some((_, end)) => Some(end),
                            None => None,
                        },
                    },
                ),
                ..class
            },
            Member::Field { kind: _, name, obfuscated } => ClassView {
                fields: class.fields.insert(obfuscated, name),
                ..class
            },
        },
{
    lemma_literals();
    let original = member.original();
    let obfuscated = member.obfuscated();
    lemma_split_at_arrow(original, obfuscated);
    lemma_trim_word(obfuscated);
    match member {
        Member::Method { covered, kind, name, rest, obfuscated: _ } => {
            lemma_method_name(kind, name, rest);
            let signature = kind + " "@ + name + "("@ + rest;
            match covered {
                Some((start, end)) => {
                    lemma_lines_are_read(start, end, kind, name, rest);
                },
                None => {
                    assert(original == signature);
                    lemma_no_lines(kind, name, rest);
                },
            }
        },
        Member::Field { kind, name, obfuscated: _ } => {
            lemma_field_is_no_method(kind, name);
            assert(is_space(' '));
            law_last_word(kind + " "@, name, seq![]);
            assert(kind + " "@ + name + Seq::<char>::empty() =~= original);
        },
    }
}

proof fn lemma_field_is_no_method(kind: Seq<char>, name: Seq<char>)
    requires
        is_text(kind),
        !kind.contains('('),
        !kind.contains(':'),
        is_word(name),
        !name.contains('('),
        !name.contains(':'),
    ensures
        method_with_lines(kind + " "@ + name) is None,
        method_name(kind + " "@ + name) is None,
{
    lemma_literals();
    let s = kind + " "@ + name;
    assert forall|c: char| (c == '(' || c == ':') implies !#[trigger] s.contains(c) by {
        if s.contains(c) {
            let k = choose|k: int| 0 <= k < s.len() && s[k] == c;
            if k < kind.len() {
                assert(kind[k] == c);
            } else if k > kind.len() {
                assert(name[k - kind.len() - 1] == c);
            }
        }
    }
    lemma_char_not_found(s, '(');
    lemma_char_not_found(s, ':');
    assert(s.last() == name[name.len() - 1]);
    assert(s.first() == kind[0]);
    lemma_trim_word(s);
}

proof fn lemma_member_body(member: Member)
    requires
        member.is_proper(),
    ensures
        ({
            let body = member.original() + " -> "@ + member.obfuscated();
            &&& body.len() > 0
            &&& !is_space(body.first())
            &&& !is_space(body.last())
            &&& !body.contains('\n')
        }),
{
    lemma_literals();
    let body = member.original() + " -> "@ + member.obfuscated();
    let obfuscated = member.obfuscated();
    assert(body.last() == obfuscated[obfuscated.len() - 1]);
    match member {
        Member::Method { covered, kind, .. } => {
            match covered {
                Some((start, _)) => {
                    lemma_decimal_digits(start as nat);
                    assert(body[0] == decimal_text(start as nat)[0]);
                },
                None => {
                    assert(body[0] == kind[0]);
                },
            }
        },
        Member::Field { kind, .. } => {
            assert(body[0] == kind[0]);
        },
    }
    lemma_member_one_line(member);
    lemma_word_one_line(obfuscated);
    if body.contains('\n') {
        let k = choose|k: int| 0 <= k < body.len() && body[k] == '\n';
        let n = member.original().len() as int;
        if k < n {
            assert(member.original()[k] == '\n');
        } else if k >= 4 + n {
            assert(obfuscated[k - 4 - n] == '\n');
        }
    }
}

/// A line between white space is read as what stands there.
proof fn lemma_line_between(indent: Seq<char>, body: Seq<char>, margin: Seq<char>)
    requires
        is_margin(indent),
        is_margin(margin),
        body.len() > 0,
        !is_space(body.first()),
        !is_space(body.last()),
        !body.contains('\n'),
    ensures
        is_plain_line(indent + body + margin),
        trim_end(indent + body + margin) == indent + body,
        trim(indent + body) == body,
{
    assert(is_space('\r'));
    let line = indent + body + margin;
    let front = indent + body;
    assert(front.last() == body.last());
    lemma_trim_end_of(front, margin);
    lemma_trim_start_of(indent, body);
    lemma_trim_word(body);
    assert(line.last() == if margin.len() > 0 {
        margin.last()
    } else {
        body.last()
    });
    if line.contains('\n') {
        let k = choose|k: int| 0 <= k < line.len() && line[k] == '\n';
        let (a, b) = (indent.len() as int, body.len() as int);
        if k < a {
            assert(indent[k] == '\n');
        } else if k < a + b {
            assert(body[k - a] == '\n');
        } else {
            assert(margin[k - a - b] == '\n');
        }
    }
}

proof fn lemma_word_one_line(s: Seq<char>)
    requires
        is_word(s),
    ensures
        !s.contains('\n'),
        !s.contains(' '),
        !s.contains('\r'),
{
    assert(is_space(' ') && is_space('\n') && is_space('\r'));
}

proof fn lemma_member_one_line(member: Member)
    requires
        member.is_proper(),
    ensures
        !member.original().contains('\n'),
{
    lemma_literals();
    match member {
        Member::Method { covered, kind, name, rest, .. } => {
            lemma_word_one_line(name);
            let signature = kind + " "@ + name + "("@ + rest;
            assert(!signature.contains('\n'));
            if let Some((start, end)) = covered {
                lemma_decimal_digits(start as nat);
                lemma_decimal_digits(end as nat);
                let (a, b) = (decimal_text(start as nat), decimal_text(end as nat));
                assert(member.original() =~= a + ":"@ + b + ":"@ + signature);
                assert(!a.contains('\n'));
                assert(!b.contains('\n'));
            }
        },
        Member::Field { kind, name, .. } => {
            lemma_word_one_line(name);
        },
    }
}

/// The first arrow splits a text behind a word.
proof fn lemma_split_at_first_arrow(word: Seq<char>, after: Seq<char>)
    requires
        is_word(word),
    ensures
        split_once(word + " -> "@ + after, " -> "@) == Some((word, after)),
{
    lemma_literals();
    let s = word + " -> "@ + after;
    let n = word.len() as int;
    assert(s.subrange(n, n + 4) =~= " -> "@);
    assert forall|j: int| 0 <= j < n implies !#[trigger] occurs_at(s, " -> "@, j) by {
        if j + 4 <= s.len() {
            assert(s.subrange(j, j + 4)[0] == word[j]);
            assert(is_space(' '));
        }
    }
    lemma_find_is(s, " -> "@, n);
    assert(s.take(n) =~= word);
    assert(s.skip(n + 4) =~= after);
}

/// The names in the line that starts a section.
proof fn lemma_class_line(original: Seq<char>, obfuscated: Seq<char>)
    requires
        is_word(original),
        is_word(obfuscated),
    ensures
        class_line(original + " -> "@ + obfuscated + ":"@) == Some((original, obfuscated)),
{
    lemma_literals();
    let body = original + " -> "@ + obfuscated;
    let line = body + ":"@;
    assert(line.take(line.len() - 1) =~= body);
    assert(":"@.is_suffix_of(line)) by {
        assert(line.subrange(line.len() - 1, line.len() as int) =~= ":"@);
    }
    lemma_split_at_first_arrow(original, obfuscated);
    lemma_trim_word(original);
    lemma_trim_word(obfuscated);
}

proof fn lemma_class_line_is_plain(original: Seq<char>, obfuscated: Seq<char>)
    requires
        is_word(original),
        is_word(obfuscated),
    ensures
        is_plain_line(original + " -> "@ + obfuscated + ":"@),
{
    lemma_literals();
    let line = original + " -> "@ + obfuscated + ":"@;
    lemma_word_one_line(original);
    lemma_word_one_line(obfuscated);
    assert(line.last() == ':');
    if line.contains('\n') {
        let k = choose|k: int| 0 <= k < line.len() && line[k] == '\n';
        let n = original.len() as int;
        if k < n {
            assert(original[k] == '\n');
        } else if k >= n + 4 && k < line.len() - 1 {
            assert(obfuscated[k - n - 4] == '\n');
        }
    }
}

/// A line is read without the white space at its end.
proof fn lemma_step_without_margin(state: ParseState, line: Seq<char>, margin: Seq<char>)
    requires
        line.len() > 0,
        !is_space(line.last()),
        is_margin(margin),
    ensures
        parse_step(state, line + margin) == parse_step(state, line),
{
    lemma_trim_end_of(line, margin);
    lemma_trim_end_of(line, seq![]);
    assert(line + Seq::<char>::empty() =~= line);
}

/// What the line that starts a section leaves open.
proof fn lemma_class_line_is_read(section: Section)
    requires
        section.is_proper(),
    ensures
        parse_step(ParseState::empty(), section.first_line()) == (ParseState {
            classes: Map::empty(),
            open: Some((section.obfuscated, new_class(section.original))),
        }),
        is_plain_line(section.first_line()),
{
    let (original, obfuscated) = (section.original, section.obfuscated);
    lemma_class_line(original, obfuscated);
    lemma_class_line_is_plain(original, obfuscated);
    let line = original + " -> "@ + obfuscated + ":"@;
    assert(line.len() > 0 && line[0] == original[0] && line.last() == ':') by {
        lemma_literals();
    }
    assert(is_space(' ') && is_space('\t'));
    assert(!is_space(original[0]));
    lemma_trim_word(line);
    lemma_step_without_margin(ParseState::empty(), line, section.margin);
    lemma_line_between(seq![], line, section.margin);
    assert(Seq::<char>::empty() + line + section.margin =~= section.first_line());
}

/// What a comment in a section adds to the class.
proof fn lemma_comment_is_read(
    state: ParseState,
    name: Seq<char>,
    class: ClassView,
    json: Seq<char>,
    margin: Seq<char>,
)
    requires
        state.open == Some((name, class)),
        is_json_text(json),
        is_margin(margin),
    ensures
        parse_step(state, "# "@ + json + margin) == (ParseState {
            open: Some(
                (name, with_file_name(class, json_string_member(json, "fileName"@))),
            ),
            ..state
        }),
        is_plain_line("# "@ + json + margin),
{
    lemma_literals();
    reveal_strlit("# ");
    let comment = "# "@ + json;
    assert("# "@ =~= seq!['#', ' ']);
    assert(comment.last() == json.last());
    assert(comment[0] == '#');
    lemma_trim_word(comment);
    let rest = json.drop_first();
    assert(comment =~= "# "@ + seq!['{'] + rest);
    lemma_find_char("# "@, '{', rest);
    assert(comment.skip(2) =~= json);
    assert(file_name_in(comment) == json_string_member(json, "fileName"@));
    assert(!comment.contains('\n')) by {
        if comment.contains('\n') {
            let k = choose|k: int| 0 <= k < comment.len() && comment[k] == '\n';
            assert(json[k - 2] == '\n');
        }
    }
    lemma_step_without_margin(state, comment, margin);
    lemma_line_between(seq![], comment, margin);
    assert(Seq::<char>::empty() + comment + margin =~= comment + margin);
}

/// What comments add to the class whose section is open.
proof fn lemma_comments_are_read(
    state: ParseState,
    name: Seq<char>,
    class: ClassView,
    comments: Seq<Seq<char>>,
    margin: Seq<char>,
)
    requires
        state.open == Some((name, class)),
        class.file_name is None,
        is_margin(margin),
        forall|i: int| 0 <= i < comments.len() ==> is_json_text(#[trigger] comments[i]),
    ensures
        parse_lines(state, comments.map_values(|json: Seq<char>| "# "@ + json + margin))
            == (ParseState {
            open: Some((name, ClassView { file_name: named_file(comments), ..class })),
            ..state
        }),
    decreases comments.len(),
{
    let ls = comments.map_values(|json: Seq<char>| "# "@ + json + margin);
    if comments.len() > 0 {
        let rest = comments.drop_last();
        let last = comments.last();
        assert(last == comments[comments.len() - 1]);
        lemma_comments_are_read(state, name, class, rest, margin);
        assert(ls.drop_last() =~= rest.map_values(|json: Seq<char>| "# "@ + json + margin));
        let before = parse_lines(state, ls.drop_last());
        let known = ClassView { file_name: named_file(rest), ..class };
        lemma_comment_is_read(before, name, known, last, margin);
        assert(ls.last() == "# "@ + last + margin);
    }
}

/// What the lines of members add to the class whose section is open.
proof fn lemma_members_are_read(
    state: ParseState,
    name: Seq<char>,
    class: ClassView,
    members: Seq<Member>,
    indent: Seq<char>,
    margin: Seq<char>,
)
    requires
        state.open == Some((name, class)),
        class.methods == Seq::<MethodView>::empty(),
        class.fields == Map::<Seq<char>, Seq<char>>::empty(),
        forall|i: int| 0 <= i < members.len() ==> (#[trigger] members[i]).is_proper(),
        is_margin(indent),
        indent.len() > 0 && (indent[0] == ' ' || indent[0] == '\t'),
        is_margin(margin),
    ensures
        parse_lines(state, members.map_values(|member: Member| member.line(indent, margin)))
            == (ParseState {
            open: Some(
                (
                    name,
                    ClassView {
                        methods: methods_of(members),
                        fields: fields_of(members),
                        ..class
                    },
                ),
            ),
            ..state
        }),
    decreases members.len(),
{
    let ls = members.map_values(|member: Member| member.line(indent, margin));
    if members.len() > 0 {
        let rest = members.drop_last();
        let last = members.last();
        assert(last == members[members.len() - 1]);
        lemma_members_are_read(state, name, class, rest, indent, margin);
        assert(ls.drop_last() =~= rest.map_values(|member: Member| member.line(indent, margin)));
        let line = last.line(indent, margin);
        assert(ls.last() == line);
        let body = last.original() + " -> "@ + last.obfuscated();
        lemma_member_body(last);
        lemma_line_between(indent, body, margin);
        assert(line =~= indent + body + margin);
        assert((indent + body)[0] == indent[0]);
        let before = ClassView { methods: methods_of(rest), fields: fields_of(rest), ..class };
        lemma_member_is_read(before, last);
    }
}

/// A section in a mapping file starts anew, whatever stands before it.
proof fn lemma_starts_section(s: Seq<char>)
    requires
        s.len() > 0 ==> s[0] != '#' && !is_space(s[0]),
    ensures
        lines(s).len() > 0 ==> crate::mappings::proguard::is_section_line(lines(s)[0]),
{
    assert(is_space('\n') && is_space('\r') && is_space(' ') && is_space('\t'));
    if s.len() > 0 {
        let n = crate::text::line_len(s) as int;
        crate::text::lemma_line_len(s);
        let line = lines(s)[0];
        assert(n > 0);
        assert(line.len() > 0 && line[0] == s[0]) by {
            if n < s.len() {
                assert(s.take(n)[0] == s[0]);
                if n == 1 {
                    assert(s.take(n).last() == s[0]);
                }
            }
        }
        lemma_trim_end_prefix(line);
    }
}

/// A mapping file has a class with its original name, its source file, its
/// methods with the lines that they cover, in their order, and its fields, as
/// the section of the class writes them. It does not matter what stands before
/// the section, nor behind it, unless that has another section for the class.
pub proof fn law_section_is_read(front: Seq<char>, section: Section, back: Seq<char>)
    requires
        front.len() > 0 ==> front.last() == '\n',
        section.is_proper(),
        back.len() > 0 ==> back[0] != '#' && !is_space(back[0]),
        !parse_mapping(back).contains_key(section.obfuscated),
    ensures
        parse_mapping(front + written(section.lines()) + back).contains_pair(
            section.obfuscated,
            ClassView {
                original_name: section.original,
                file_name: named_file(section.comments),
                methods: methods_of(section.members),
                fields: fields_of(section.members),
            },
        ),
{
    let ls = section.lines();
    let (first, comments) = (section.first_line(), section.comment_lines());
    let members = section.member_lines();
    let text = written(ls);
    lemma_class_line_is_read(section);
    let opened = parse_step(ParseState::empty(), first);
    assert forall|i: int| 0 <= i < ls.len() implies is_plain_line(#[trigger] ls[i]) by {
        let n = comments.len() as int;
        if i > n {
            let member = section.members[i - 1 - n];
            let body = member.original() + " -> "@ + member.obfuscated();
            lemma_member_body(member);
            lemma_line_between(section.indent, body, section.margin);
            assert(ls[i] == members[i - 1 - n]);
            assert(ls[i] =~= section.indent + body + section.margin);
        } else if i > 0 {
            let json = section.comments[i - 1];
            lemma_comment_is_read(
                opened,
                section.obfuscated,
                new_class(section.original),
                json,
                section.margin,
            );
            assert(ls[i] == comments[i - 1]);
        }
    }
    lemma_written_lines(ls);
    assert(parse_lines(ParseState::empty(), seq![first]) == opened) by {
        assert(seq![first].drop_last() =~= Seq::<Seq<char>>::empty());
        reveal_with_fuel(parse_lines, 2);
    }
    lemma_parse_lines_append(ParseState::empty(), seq![first] + comments, members);
    lemma_parse_lines_append(ParseState::empty(), seq![first], comments);
    lemma_comments_are_read(
        opened,
        section.obfuscated,
        new_class(section.original),
        section.comments,
        section.margin,
    );
    let state = parse_lines(opened, comments);
    let class = ClassView {
        file_name: named_file(section.comments),
        ..new_class(section.original)
    };
    lemma_members_are_read(
        state,
        section.obfuscated,
        class,
        section.members,
        section.indent,
        section.margin,
    );
    let full = ClassView {
        methods: methods_of(section.members),
        fields: fields_of(section.members),
        ..class
    };
    assert(parse_mapping(text).contains_pair(section.obfuscated, full));
    assert(ls[0] == first && first.len() > 0 && first[0] == section.original[0]);
    lemma_first_char(ls);
    lemma_starts_section(text);
    lemma_starts_section(back);
    lemma_sections_follow(front, text);
    let start = front + text;
    assert(start.last() == text.last());
    lemma_sections_follow(start, back);
}

proof fn lemma_first_char(ls: Seq<Seq<char>>)
    requires
        ls.len() > 0,
        ls[0].len() > 0,
    ensures
        written(ls).len() > 0,
        written(ls)[0] == ls[0][0],
    decreases ls.len(),
{
    if ls.len() > 1 {
        lemma_first_char(ls.drop_last());
    } else {
        assert(ls.drop_last() =~= Seq::<Seq<char>>::empty());
        assert(written(ls.drop_last()) =~= Seq::<char>::empty());
    }
}

// ---------------------------------------------------------------------------
// Stack frames
// ---------------------------------------------------------------------------

/// A stack frame as a stack trace writes it: the method of a class, in a
/// container such as `app//`.
pub struct Frame {
    /// What stands before `at`.
    pub indent: Seq<char>,
    pub container: Seq<char>,
    pub class: Seq<char>,
    pub method: Seq<char>,
}

impl Frame {
    pub open spec fn is_proper(self) -> bool {
        &&& forall|i: int| 0 <= i < self.indent.len() ==> is_space(#[trigger] self.indent[i])
        &&& !self.indent.contains('\n')
        &&& !self.container.contains('(') && !self.container.contains('\n')
        &&& self.container.len() > 0 ==> self.container.last() == '/'
        &&& !self.class.contains('(') && !self.class.contains('/') && !self.class.contains('\n')
        &&& !self.method.contains('(') && !self.method.contains('/') && !self.method.contains('\n')
        &&& !self.method.contains('.')
    }

    /// The frame, at a place such as `File.java:12`.
    pub open spec fn line(self, place: Seq<char>) -> Seq<char> {
        self.indent + "at "@ + self.container + self.class + "."@ + self.method + "("@ + place
            + ")"@
    }
}

/// The place of a frame in a file, at a line where one is known.
pub open spec fn place_in(file: Seq<char>, line: Option<u32>) -> Seq<char> {
    match line {
        Some(n) => file + ":"@ + decimal_text(n as nat),
        None => file,
    }
}

/// A method goes by an obfuscated name.
pub open spec fn goes_by(method: MethodView, name: Seq<char>) -> bool {
    method.obfuscated_name == name
}

/// A line is one of those that a method is known to cover: it is not before the
/// first one, and not behind the last one.
pub open spec fn has_in_range(method: MethodView, line: Option<u32>) -> bool {
    match (method.start_line, method.end_line, line) {
        (Some(start), Some(end), Some(n)) => start <= n && n <= end,
        _ => false,
    }
}

/// The method at `k` is the one that an obfuscated name and a line stand for: the
/// first of that name that covers the line, or, if none does, the first of it.
pub open spec fn is_meant(
    methods: Seq<MethodView>,
    name: Seq<char>,
    line: Option<u32>,
    k: int,
) -> bool {
    &&& 0 <= k < methods.len()
    &&& goes_by(methods[k], name)
    &&& if has_in_range(methods[k], line) {
        forall|j: int|
            0 <= j < k && goes_by(#[trigger] methods[j], name) ==> !has_in_range(methods[j], line)
    } else {
        forall|j: int|
            0 <= j < methods.len() && goes_by(#[trigger] methods[j], name) ==> j >= k
                && !has_in_range(methods[j], line)
    }
}

proof fn lemma_first_method_at(
    methods: Seq<MethodView>,
    accepts: spec_fn(MethodView) -> bool,
    k: int,
)
    requires
        0 <= k <= methods.len(),
        forall|j: int| 0 <= j < k ==> !accepts(#[trigger] methods[j]),
        k < methods.len() ==> accepts(methods[k]),
    ensures
        first_method(methods, accepts) == if k < methods.len() {
            Some(methods[k])
        } else {
            None
        },
    decreases k,
{
    if k > 0 {
        let rest = methods.drop_first();
        assert(!accepts(methods[0]));
        assert forall|j: int| 0 <= j < k - 1 implies !accepts(#[trigger] rest[j]) by {
            assert(rest[j] == methods[j + 1]);
        }
        lemma_first_method_at(rest, accepts, k - 1);
    }
}

/// An obfuscated name and a line stand for the method that is meant; where no
/// method goes by the name, for none.
pub proof fn law_meant_method_is_resolved(
    class: ClassView,
    name: Seq<char>,
    line: Option<u32>,
    k: int,
)
    ensures
        is_meant(class.methods, name, line, k) ==> resolved_method(class, name, line) == Some(
            class.methods[k],
        ),
        (forall|j: int|
            0 <= j < class.methods.len() ==> !goes_by(#[trigger] class.methods[j], name))
            ==> resolved_method(class, name, line) is None,
{
    let methods = class.methods;
    let named = |m: MethodView| m.is_named(name);
    if forall|j: int| 0 <= j < methods.len() ==> !goes_by(#[trigger] methods[j], name) {
        lemma_first_method_at(methods, named, methods.len() as int);
        if let Some(n) = line {
            lemma_first_method_at(
                methods,
                |m: MethodView| m.covers(name, n),
                methods.len() as int,
            );
        }
    }
    if is_meant(methods, name, line, k) {
        match line {
            Some(n) => {
                let covers = |m: MethodView| m.covers(name, n);
                if has_in_range(methods[k], line) {
                    lemma_first_method_at(methods, covers, k);
                } else {
                    lemma_first_method_at(methods, covers, methods.len() as int);
                    lemma_first_method_at(methods, named, k);
                }
            },
            None => {
                lemma_first_method_at(methods, named, k);
            },
        }
    }
}

proof fn lemma_trim_matches(s: Seq<char>, c: char)
    ensures
        s.len() > 0 && s.first() != c ==> trim_start_matches(s, c) == s,
        s.len() > 0 && s.last() != c ==> trim_end_matches(s, c) == s,
        exists|k: int| 0 <= k <= s.len() && trim_start_matches(s, c) == #[trigger] s.skip(k)
            && forall|i: int| 0 <= i < k ==> s[i] == c,
    decreases s.len(),
{
    if s.len() > 0 && s.first() == c {
        let rest = s.drop_first();
        lemma_trim_matches(rest, c);
        let k = choose|k: int| 0 <= k <= rest.len() && trim_start_matches(rest, c)
            == #[trigger] rest.skip(k) && forall|i: int| 0 <= i < k ==> rest[i] == c;
        assert(rest.skip(k) =~= s.skip(k + 1));
        assert forall|i: int| 0 <= i < k + 1 implies s[i] == c by {
            if i > 0 {
                assert(rest[i - 1] == s[i]);
            }
        }
    } else {
        assert(s.skip(0) =~= s);
    }
}

/// The line in a place is the number behind its last colon.
#[verifier::rlimit(40)]
proof fn lemma_location_line(file: Seq<char>, line: Option<u32>)
    requires
        line is None ==> !file.contains(':'),
    ensures
        location_line("("@ + place_in(file, line) + ")"@) == line,
{
    lemma_literals();
    let place = place_in(file, line);
    let location = "("@ + place + ")"@;
    lemma_trim_matches(location, '(');
    let k = choose|k: int| 0 <= k <= location.len() && trim_start_matches(location, '(')
        == #[trigger] location.skip(k) && forall|i: int| 0 <= i < k ==> location[i] == '(';
    let rest = location.skip(k);
    match line {
        Some(n) => {
            let digits = decimal_text(n as nat);
            lemma_decimal_digits(n as nat);
            let colon = 1 + file.len() as int;
            assert(location[colon] == ':');
            assert(k <= colon);
            let before = location.subrange(k, colon);
            let inner = before + ":"@ + digits;
            assert(rest =~= inner + ")"@);
            assert(rest.drop_last() =~= inner);
            assert(inner.last() == digits[digits.len() - 1]);
            lemma_trim_matches(inner, ')');
            assert(trim_end_matches(rest, ')') == inner);
            assert(!digits.contains(':'));
            lemma_rfind_char(before, ':', digits);
            assert(inner.skip(colon - k + 1) =~= digits);
            law_decimal_round_trip(n as nat, u32::MAX as nat);
        },
        None => {
            let inner = trim_end_matches(rest, ')');
            lemma_trim_end_part(rest, ')');
            assert(!inner.contains(':')) by {
                if inner.contains(':') {
                    let i = choose|i: int| 0 <= i < inner.len() && inner[i] == ':';
                    assert(rest[i] == ':');
                    assert(location[i + k] == ':');
                    assert(file[i + k - 1] == ':');
                }
            }
            lemma_char_not_found(inner, ':');
        },
    }
}

proof fn lemma_trim_end_part(s: Seq<char>, c: char)
    ensures
        trim_end_matches(s, c).len() <= s.len(),
        trim_end_matches(s, c) == s.take(trim_end_matches(s, c).len() as int),
    decreases s.len(),
{
    if s.len() > 0 && s.last() == c {
        lemma_trim_end_part(s.drop_last(), c);
    }
}

/// How a frame is taken apart.
#[verifier::rlimit(40)]
proof fn lemma_frame_parts(classes: Map<Seq<char>, ClassView>, frame: Frame, place: Seq<char>)
    requires
        frame.is_proper(),
        !place.contains('\n'),
    ensures
        retraced(classes, frame.line(place)) == if classes.contains_key(frame.class) {
            frame.indent + "at "@ + original_frame(
                classes[frame.class],
                frame.container,
                frame.method,
                "("@ + place + ")"@,
            )
        } else {
            frame.line(place)
        },
{
    lemma_literals();
    let line = frame.line(place);
    let before = frame.container + frame.class + "."@ + frame.method;
    let location = "("@ + place + ")"@;
    let rest = before + location;
    let body = "at "@ + rest;
    assert(line =~= frame.indent + body);
    assert(!is_space('a'));
    lemma_trim_start_of(frame.indent, body);
    assert(line.take(line.len() - body.len()) =~= frame.indent);
    assert("at "@.is_prefix_of(body)) by {
        assert(body.take(3) =~= "at "@);
    }
    assert(body.skip(3) =~= rest);
    assert(!before.contains('(')) by {
        lemma_no_char(frame, '(');
    }
    let behind = place + ")"@;
    assert(rest =~= before + seq!['('] + behind);
    lemma_find_char(before, '(', behind);
    let n = before.len() as int;
    assert(rest.take(n) =~= before);
    assert(rest.skip(n) =~= location);
    let qualified = frame.class + "."@ + frame.method;
    assert(container_parts(before) == (frame.container, qualified)) by {
        assert(!qualified.contains('/')) by {
            if qualified.contains('/') {
                let i = choose|i: int| 0 <= i < qualified.len() && qualified[i] == '/';
                if i < frame.class.len() {
                    assert(frame.class[i] == '/');
                } else if i > frame.class.len() {
                    assert(frame.method[i - frame.class.len() - 1] == '/');
                }
            }
        }
        if frame.container.len() > 0 {
            let c = frame.container.drop_last();
            assert(before =~= c + seq!['/'] + qualified);
            lemma_rfind_char(c, '/', qualified);
            assert(before.take(c.len() as int + 1) =~= frame.container);
            assert(before.skip(c.len() as int + 1) =~= qualified);
        } else {
            assert(before =~= qualified);
            assert(frame.container =~= Seq::<char>::empty());
            lemma_char_not_found(before, '/');
        }
    }
    lemma_rfind_char(frame.class, '.', frame.method);
    let d = frame.class.len() as int;
    assert(qualified.take(d) =~= frame.class);
    assert(qualified.skip(d + 1) =~= frame.method);
    assert(!line.contains('\n')) by {
        lemma_no_char(frame, '\n');
        if line.contains('\n') {
            let i = choose|i: int| 0 <= i < line.len() && line[i] == '\n';
            let m = frame.indent.len() as int;
            if i < m {
                assert(frame.indent[i] == '\n');
            } else if i >= m + 3 && i < m + 3 + n {
                assert(before[i - m - 3] == '\n');
            } else if i > m + 3 + n && i < line.len() - 1 {
                assert(place[i - m - 4 - n] == '\n');
            }
        }
    }
    law_lines_end_at_newlines(line, seq![]);
    assert(line.last() == ')');
    assert(retraced_lines(classes, seq![line]) == retraced_line(classes, line));
    assert(retraced(classes, line) =~= retraced_line(classes, line));
    assert(frame.indent + "at "@ + rest =~= line);
}

proof fn lemma_no_char(frame: Frame, c: char)
    requires
        c != '.',
        !frame.container.contains(c),
        !frame.class.contains(c),
        !frame.method.contains(c),
    ensures
        !(frame.container + frame.class + "."@ + frame.method).contains(c),
{
    lemma_literals();
    let before = frame.container + frame.class + "."@ + frame.method;
    if before.contains(c) {
        let i = choose|i: int| 0 <= i < before.len() && before[i] == c;
        let (a, b) = (frame.container.len() as int, frame.class.len() as int);
        if i < a {
            assert(frame.container[i] == c);
        } else if i < a + b {
            assert(frame.class[i - a] == c);
        } else if i > a + b {
            assert(frame.method[i - a - b - 1] == c);
        }
    }
}

/// The source file that is written for a class.
pub open spec fn file_of(class: ClassView) -> Seq<char> {
    match class.file_name {
        Some(file) => file,
        None => "Unknown Source"@,
    }
}

/// A frame of a known class is written with the original names: those of the
/// class and of the method that the line number means. The container and the
/// line number stay, and the source file is that of the class.
pub proof fn law_frame_names_the_meant_method(
    classes: Map<Seq<char>, ClassView>,
    frame: Frame,
    file: Seq<char>,
    line: Option<u32>,
    k: int,
)
    requires
        frame.is_proper(),
        !file.contains('\n'),
        line is None ==> !file.contains(':'),
        classes.contains_key(frame.class),
        is_meant(classes[frame.class].methods, frame.method, line, k),
    ensures
        retraced(classes, frame.line(place_in(file, line))) == (Frame {
            class: classes[frame.class].original_name,
            method: classes[frame.class].methods[k].original_name,
            ..frame
        }).line(place_in(file_of(classes[frame.class]), line)),
{
    lemma_literals();
    let class = classes[frame.class];
    lemma_place_one_line(file, line);
    lemma_frame_parts(classes, frame, place_in(file, line));
    lemma_location_line(file, line);
    law_meant_method_is_resolved(class, frame.method, line, k);
    let known = Frame {
        class: class.original_name,
        method: class.methods[k].original_name,
        ..frame
    };
    assert(retraced(classes, frame.line(place_in(file, line))) =~= known.line(
        place_in(file_of(class), line),
    ));
}

/// A frame of a known class without a method of that name keeps the name of the
/// method; the class, the source file and the line number are written all the same.
pub proof fn law_frame_keeps_an_unknown_method(
    classes: Map<Seq<char>, ClassView>,
    frame: Frame,
    file: Seq<char>,
    line: Option<u32>,
)
    requires
        frame.is_proper(),
        !file.contains('\n'),
        line is None ==> !file.contains(':'),
        classes.contains_key(frame.class),
        forall|j: int|
            0 <= j < classes[frame.class].methods.len() ==> !goes_by(
                #[trigger] classes[frame.class].methods[j],
                frame.method,
            ),
    ensures
        retraced(classes, frame.line(place_in(file, line))) == (Frame {
            class: classes[frame.class].original_name,
            ..frame
        }).line(place_in(file_of(classes[frame.class]), line)),
{
    lemma_literals();
    let class = classes[frame.class];
    lemma_place_one_line(file, line);
    lemma_frame_parts(classes, frame, place_in(file, line));
    lemma_location_line(file, line);
    law_meant_method_is_resolved(class, frame.method, line, 0);
    let known = Frame { class: class.original_name, ..frame };
    assert(retraced(classes, frame.line(place_in(file, line))) =~= known.line(
        place_in(file_of(class), line),
    ));
}

/// What stands behind the last colon of a place is no line number unless it is a
/// numeral: then the source file is written without one, and the method is the first
/// of its name.
pub proof fn law_frame_without_a_number_has_no_line(
    classes: Map<Seq<char>, ClassView>,
    frame: Frame,
    file: Seq<char>,
    other: Seq<char>,
    k: int,
)
    requires
        frame.is_proper(),
        !file.contains('\n'),
        !other.contains('\n'),
        !other.contains(':'),
        other.len() > 0 ==> other.last() != ')',
        parse_decimal(other, 4294967295) is None,
        classes.contains_key(frame.class),
        is_meant(classes[frame.class].methods, frame.method, None, k),
    ensures
        retraced(classes, frame.line(file + ":"@ + other)) == (Frame {
            class: classes[frame.class].original_name,
            method: classes[frame.class].methods[k].original_name,
            ..frame
        }).line(file_of(classes[frame.class])),
{
    lemma_literals();
    let class = classes[frame.class];
    let place = file + ":"@ + other;
    assert(!place.contains('\n')) by {
        if place.contains('\n') {
            let i = choose|i: int| 0 <= i < place.len() && place[i] == '\n';
            if i < file.len() {
                assert(file[i] == '\n');
            } else if i > file.len() {
                assert(other[i - file.len() - 1] == '\n');
            }
        }
    }
    lemma_frame_parts(classes, frame, place);
    lemma_location_number(file, other);
    law_meant_method_is_resolved(class, frame.method, None, k);
    let known = Frame {
        class: class.original_name,
        method: class.methods[k].original_name,
        ..frame
    };
    assert(retraced(classes, frame.line(place)) =~= known.line(file_of(class)));
}

/// What stands behind the last colon of a place is what is read as its line.
#[verifier::rlimit(40)]
proof fn lemma_location_number(file: Seq<char>, number: Seq<char>)
    requires
        !number.contains(':'),
        number.len() > 0 ==> number.last() != ')',
    ensures
        location_line("("@ + (file + ":"@ + number) + ")"@) == match parse_decimal(
            number,
            u32::MAX as nat,
        ) {
            Some(n) => Some(n as u32),
            None => None,
        },
{
    lemma_literals();
    let location = "("@ + (file + ":"@ + number) + ")"@;
    lemma_trim_matches(location, '(');
    let k = choose|k: int| 0 <= k <= location.len() && trim_start_matches(location, '(')
        == #[trigger] location.skip(k) && forall|i: int| 0 <= i < k ==> location[i] == '(';
    let rest = location.skip(k);
    let colon = 1 + file.len() as int;
    assert(location[colon] == ':');
    assert(k <= colon);
    let before = location.subrange(k, colon);
    let inner = before + ":"@ + number;
    assert(rest =~= inner + ")"@);
    assert(rest.drop_last() =~= inner);
    assert(inner.last() == if number.len() > 0 {
        number[number.len() - 1]
    } else {
        ':'
    });
    lemma_trim_matches(inner, ')');
    assert(trim_end_matches(rest, ')') == inner);
    lemma_rfind_char(before, ':', number);
    assert(inner.skip(colon - k + 1) =~= number);
}

/// A line that starts as a stack frame but has no place, or no class before the name
/// of a method, stays as it is.
pub proof fn law_line_that_is_no_frame_stays(
    classes: Map<Seq<char>, ClassView>,
    indent: Seq<char>,
    rest: Seq<char>,
)
    requires
        forall|i: int| 0 <= i < indent.len() ==> is_space(#[trigger] indent[i]),
        !indent.contains('\n'),
        is_plain_line(rest),
        !rest.contains('(') || !rest.contains('.'),
    ensures
        retraced(classes, indent + "at "@ + rest) == indent + "at "@ + rest,
{
    lemma_literals();
    let body = "at "@ + rest;
    let line = indent + "at "@ + rest;
    assert(line =~= indent + body);
    assert(!is_space('a'));
    lemma_trim_start_of(indent, body);
    assert(line.take(line.len() - body.len()) =~= indent);
    assert("at "@.is_prefix_of(body)) by {
        assert(body.take(3) =~= "at "@);
    }
    assert(body.skip(3) =~= rest);
    assert(retraced_frame(classes, rest) == rest) by {
        if !rest.contains('(') {
            lemma_char_not_found(rest, '(');
        } else {
            lemma_find_first(rest, "("@);
            if let Some(paren) = find(rest, "("@) {
                let before = rest.take(paren);
                lemma_rfind_last(before, "/"@);
                let qualified = container_parts(before).1;
                assert(!qualified.contains('.')) by {
                    if qualified.contains('.') {
                        let i = choose|i: int| 0 <= i < qualified.len() && qualified[i] == '.';
                        let n = before.len() - qualified.len();
                        assert(before[i + n] == '.');
                        assert(rest[i + n] == '.');
                    }
                }
                lemma_char_not_found(qualified, '.');
            }
        }
    }
    assert(!line.contains('\n')) by {
        if line.contains('\n') {
            let i = choose|i: int| 0 <= i < line.len() && line[i] == '\n';
            let m = indent.len() as int;
            if i < m {
                assert(indent[i] == '\n');
            } else if i >= m + 3 {
                assert(rest[i - m - 3] == '\n');
            }
        }
    }
    law_lines_end_at_newlines(line, seq![]);
    assert(retraced_lines(classes, seq![line]) == retraced_line(classes, line));
    if line.last() == '\n' {
        assert(line.contains(line[line.len() - 1]));
    }
    assert(retraced(classes, line) =~= line);
}

/// A frame of a class that is not known stays as it is.
pub proof fn law_frame_of_unknown_class_stays(
    classes: Map<Seq<char>, ClassView>,
    frame: Frame,
    place: Seq<char>,
)
    requires
        frame.is_proper(),
        !place.contains('\n'),
        !classes.contains_key(frame.class),
    ensures
        retraced(classes, frame.line(place)) == frame.line(place),
{
    lemma_frame_parts(classes, frame, place);
}

proof fn lemma_place_one_line(file: Seq<char>, line: Option<u32>)
    requires
        !file.contains('\n'),
    ensures
        !place_in(file, line).contains('\n'),
{
    lemma_literals();
    if let Some(n) = line {
        lemma_decimal_digits(n as nat);
        let digits = decimal_text(n as nat);
        let place = place_in(file, line);
        if place.contains('\n') {
            let i = choose|i: int| 0 <= i < place.len() && place[i] == '\n';
            if i < file.len() {
                assert(file[i] == '\n');
            } else if i > file.len() {
                assert(digits[i - file.len() - 1] == '\n');
            }
        }
    }
}

/// Each method of a class comes from a member.
proof fn lemma_method_comes_from_member(members: Seq<Member>, j: int)
    requires
        0 <= j < methods_of(members).len(),
    ensures
        exists|i: int|
            0 <= i < members.len() && (#[trigger] members[i]).method() == Some(
                methods_of(members)[j],
            ),
    decreases members.len(),
{
    let rest = members.drop_last();
    if j < methods_of(rest).len() {
        lemma_method_comes_from_member(rest, j);
        let i = choose|i: int|
            0 <= i < rest.len() && (#[trigger] rest[i]).method() == Some(methods_of(rest)[j]);
        assert(members[i].method() == Some(methods_of(members)[j]));
    } else {
        assert(members[members.len() - 1].method() == Some(methods_of(members)[j]));
    }
}

/// The methods of the first members come first.
proof fn lemma_methods_of_first_members(members: Seq<Member>, k: int)
    requires
        0 <= k <= members.len(),
    ensures
        methods_of(members.take(k)).is_prefix_of(methods_of(members)),
    decreases members.len() - k,
{
    if k < members.len() {
        lemma_methods_of_first_members(members, k + 1);
        assert(members.take(k + 1).drop_last() =~= members.take(k));
    } else {
        assert(members.take(k) =~= members);
    }
}

/// The place of the method that a member is.
proof fn lemma_method_place(members: Seq<Member>, k: int) -> (m: int)
    requires
        0 <= k < members.len(),
        members[k].method() is Some,
    ensures
        0 <= m < methods_of(members).len(),
        members[k].method() == Some(methods_of(members)[m]),
        m == methods_of(members.take(k)).len(),
        forall|j: int|
            0 <= j < m ==> exists|i: int|
                0 <= i < k && (#[trigger] members[i]).method() == Some(
                    #[trigger] methods_of(members)[j],
                ),
{
    let before = members.take(k);
    let m = methods_of(before).len() as int;
    lemma_methods_of_first_members(members, k);
    lemma_methods_of_first_members(members, k + 1);
    assert(members.take(k + 1).drop_last() =~= before);
    assert(members.take(k + 1).last() == members[k]);
    let up_to = methods_of(members.take(k + 1));
    assert(up_to =~= methods_of(members).subrange(0, up_to.len() as int));
    assert(up_to[m] == methods_of(members)[m]);
    assert forall|j: int| 0 <= j < m implies exists|i: int|
        0 <= i < k && (#[trigger] members[i]).method() == Some(
            #[trigger] methods_of(members)[j],
        ) by {
        lemma_method_comes_from_member(before, j);
        let i = choose|i: int|
            0 <= i < before.len() && (#[trigger] before[i]).method() == Some(methods_of(before)[j]);
        assert(members[i].method() == Some(methods_of(members)[j]));
    }
    m
}

/// A mapping file has, in the section of a class, a method that covers the lines
/// from `start` to `end`, both included. Then a stack frame of the class at any of
/// these lines is retraced to that method, unless one of the same obfuscated name
/// before it covers the line too. It does not matter what else the mapping file
/// holds, before the section or behind it.
pub proof fn law_line_number_finds_the_method(
    front: Seq<char>,
    section: Section,
    back: Seq<char>,
    k: int,
    start: u32,
    end: u32,
    frame: Frame,
    file: Seq<char>,
    n: u32,
)
    requires
        front.len() > 0 ==> front.last() == '\n',
        section.is_proper(),
        back.len() > 0 ==> back[0] != '#' && !is_space(back[0]),
        !parse_mapping(back).contains_key(section.obfuscated),
        0 <= k < section.members.len(),
        section.members[k] matches Member::Method { covered, obfuscated, .. } && covered == Some(
            (start, end),
        ) && obfuscated == frame.method,
        start <= n,
        n <= end,
        forall|j: int|
            0 <= j < k ==> match #[trigger] section.members[j] {
                Member::Method { covered: Some((first, last)), obfuscated, .. } => obfuscated
                    != frame.method || n < first || last < n,
                _ => true,
            },
        frame.is_proper(),
        frame.class == section.obfuscated,
        !file.contains('\n'),
    ensures
        section.members[k] matches Member::Method { name, .. } && retraced(
            parse_mapping(front + written(section.lines()) + back),
            frame.line(file + ":"@ + decimal_text(n as nat)),
        ) == (Frame { class: section.original, method: name, ..frame }).line(
            match named_file(section.comments) {
                Some(source) => source,
                None => "Unknown Source"@,
            } + ":"@ + decimal_text(n as nat),
        ),
{
    law_section_is_read(front, section, back);
    let classes = parse_mapping(front + written(section.lines()) + back);
    let methods = methods_of(section.members);
    let m = lemma_method_place(section.members, k);
    assert(has_in_range(methods[m], Some(n)));
    assert forall|j: int|
        0 <= j < m && goes_by(#[trigger] methods[j], frame.method) implies !has_in_range(
        methods[j],
        Some(n),
    ) by {
        let i = choose|i: int|
            0 <= i < k && (#[trigger] section.members[i]).method() == Some(methods[j]);
    }
    law_frame_names_the_meant_method(classes, frame, file, Some(n), m);
}

/// What a class, a method and a line stand for: the original name of the class,
/// the line, or zero without one, and the name of the method that is meant, if one
/// is.
pub proof fn law_class_method_and_line_are_resolved(
    class: ClassView,
    method: Option<Seq<char>>,
    line: Option<u32>,
    k: int,
)
    ensures
        ({
            let position = resolved_position(class, method, line);
            &&& position.source == class.original_name
            &&& position.column == 0
            &&& line matches Some(n) ==> position.line == n
            &&& line is None ==> position.line == 0
            &&& method is None ==> position.name is None
            &&& method matches Some(name) ==> (is_meant(class.methods, name, line, k)
                ==> position.name == Some(class.methods[k].original_name)) && ((forall|j: int|
                0 <= j < class.methods.len() ==> !goes_by(#[trigger] class.methods[j], name))
                ==> position.name is None)
        }),
{
    if let Some(name) = method {
        law_meant_method_is_resolved(class, name, line, k);
    }
}

// ---------------------------------------------------------------------------
// Lines with exceptions
// ---------------------------------------------------------------------------

/// A line that names an exception: alone, or with a message; and as the cause of
/// another, or not.
pub struct Exception {
    pub indent: Seq<char>,
    pub is_cause: bool,
    pub container: Seq<char>,
    pub class: Seq<char>,
    pub message: Option<Seq<char>>,
}

impl Exception {
    pub open spec fn is_proper(self) -> bool {
        &&& forall|i: int| 0 <= i < self.indent.len() ==> is_space(#[trigger] self.indent[i])
        &&& !self.indent.contains('\n')
        &&& self.container.len() > 0 ==> is_word(self.container) && self.container.last() == '/'
        &&& is_word(self.class) && !self.class.contains('/')
        &&& self.message matches Some(message) ==> is_plain_line(message)
    }

    pub open spec fn line(self) -> Seq<char> {
        self.indent + (if self.is_cause {
            "Caused by: "@
        } else {
            seq![]
        }) + self.container + self.class + match self.message {
            Some(message) => ": "@ + message,
            None => seq![],
        }
    }
}

#[verifier::rlimit(40)]
proof fn lemma_exception_parts(classes: Map<Seq<char>, ClassView>, exception: Exception)
    requires
        exception.is_proper(),
    ensures
        retraced_exception(classes, exception.line()) == if classes.contains_key(exception.class) {
            (Exception { class: classes[exception.class].original_name, ..exception }).line()
        } else {
            exception.line()
        },
{
    lemma_literals();
    reveal_strlit("Caused by: ");
    let line = exception.line();
    let cause = if exception.is_cause {
        "Caused by: "@
    } else {
        seq![]
    };
    let message = match exception.message {
        Some(message) => ": "@ + message,
        None => seq![],
    };
    let class_part = exception.container + exception.class;
    let class_and_rest = class_part + message;
    let trimmed = cause + class_and_rest;
    assert(line =~= exception.indent + trimmed);
    lemma_word_one_line(exception.class);
    assert(is_word(class_part)) by {
        assert forall|i: int| 0 <= i < class_part.len() implies !is_space(
            #[trigger] class_part[i],
        ) by {
            if i < exception.container.len() {
                assert(class_part[i] == exception.container[i]);
            } else {
                assert(class_part[i] == exception.class[i - exception.container.len()]);
            }
        }
    }
    assert(trimmed[0] == if exception.is_cause {
        'C'
    } else {
        class_part[0]
    });
    assert(!is_space('C'));
    lemma_trim_start_of(exception.indent, trimmed);
    assert(line.take(line.len() - trimmed.len()) =~= exception.indent);
    lemma_class_before_message(class_part, exception.message);
    assert(strip_prefix(trimmed, "Caused by: "@) == if exception.is_cause {
        Some(class_and_rest)
    } else {
        None
    }) by {
        if exception.is_cause {
            assert(trimmed.take(11) =~= "Caused by: "@);
            assert(trimmed.skip(11) =~= class_and_rest);
        } else {
            assert(trimmed =~= class_and_rest);
            if "Caused by: "@.is_prefix_of(trimmed) {
                let first = trimmed.subrange(0, 11);
                assert(first == "Caused by: "@);
                assert(trimmed[6] == first[6]);
                assert(trimmed[6] == ' ');
                assert(is_space(' '));
                if class_part.len() > 6 {
                    assert(class_part[6] == ' ');
                } else {
                    let c = class_part.len() as int;
                    assert(message.len() > 0);
                    assert(trimmed[c] == ':');
                    assert(first[c] == trimmed[c]);
                }
            }
        }
    }
    assert(container_parts(class_part) == (exception.container, exception.class)) by {
        if exception.container.len() > 0 {
            let c = exception.container.drop_last();
            assert(class_part =~= c + seq!['/'] + exception.class);
            lemma_rfind_char(c, '/', exception.class);
            assert(class_part.take(c.len() as int + 1) =~= exception.container);
            assert(class_part.skip(c.len() as int + 1) =~= exception.class);
        } else {
            assert(class_part =~= exception.class);
            assert(exception.container =~= Seq::<char>::empty());
            lemma_char_not_found(class_part, '/');
        }
    }
    if classes.contains_key(exception.class) {
        let known = Exception { class: classes[exception.class].original_name, ..exception };
        assert(known.line() =~= exception.indent + cause + exception.container
            + classes[exception.class].original_name + message);
    }
}

proof fn lemma_class_part_has_no(exception: Exception, c: char)
    requires
        !exception.container.contains(c),
        !exception.class.contains(c),
    ensures
        !(exception.container + exception.class).contains(c),
{
    let s = exception.container + exception.class;
    if s.contains(c) {
        let k = choose|k: int| 0 <= k < s.len() && s[k] == c;
        if k < exception.container.len() {
            assert(exception.container[k] == c);
        } else {
            assert(exception.class[k - exception.container.len()] == c);
        }
    }
}

/// The class of an exception stands before the first colon with a space.
proof fn lemma_class_before_message(class_part: Seq<char>, message: Option<Seq<char>>)
    requires
        is_word(class_part),
    ensures
        message matches Some(text) ==> split_once(class_part + (": "@ + text), ": "@) == Some(
            (class_part, text),
        ),
        message is None ==> split_once(class_part + seq![], ": "@) is None,
{
    lemma_literals();
    let n = class_part.len() as int;
    match message {
        Some(text) => {
            let s = class_part + (": "@ + text);
            assert(s.subrange(n, n + 2) =~= ": "@);
            assert forall|j: int| 0 <= j < n implies !#[trigger] occurs_at(s, ": "@, j) by {
                if occurs_at(s, ": "@, j) {
                    assert(s.subrange(j, j + 2)[1] == ' ');
                    assert(is_space(' '));
                    if j + 1 < n {
                        assert(class_part[j + 1] == ' ');
                    }
                }
            }
            lemma_find_is(s, ": "@, n);
            assert(s.take(n) =~= class_part);
            assert(s.skip(n + 2) =~= text);
        },
        None => {
            let s = class_part + Seq::<char>::empty();
            assert(s =~= class_part);
            lemma_find_first(s, ": "@);
            if let Some(j) = find(s, ": "@) {
                assert(s.subrange(j, j + 2)[1] == ' ');
                assert(class_part[j + 1] == ' ');
                assert(is_space(' '));
            }
        },
    }
}

/// A line that names an exception is written with the original name of its
/// class, if that is known, and stays else. What stands around the name stays.
pub proof fn law_exception_names_the_original_class(
    classes: Map<Seq<char>, ClassView>,
    exception: Exception,
)
    requires
        exception.is_proper(),
    ensures
        retraced(classes, exception.line()) == if classes.contains_key(exception.class) {
            (Exception { class: classes[exception.class].original_name, ..exception }).line()
        } else {
            exception.line()
        },
{
    lemma_exception_line(exception);
    lemma_exception_parts(classes, exception);
    let line = exception.line();
    law_lines_end_at_newlines(line, seq![]);
    assert(retraced_lines(classes, seq![line]) == retraced_line(classes, line));
    assert(retraced(classes, line) =~= retraced_line(classes, line)) by {
        if line.last() == '\n' {
            assert(line.contains(line[line.len() - 1]));
        }
    }
}

/// The line of an exception is one line, and no stack frame.
#[verifier::rlimit(40)]
proof fn lemma_exception_line(exception: Exception)
    requires
        exception.is_proper(),
    ensures
        exception.line().len() > 0,
        !exception.line().contains('\n'),
        strip_prefix(trim_start(exception.line()), "at "@) is None,
{
    lemma_literals();
    reveal_strlit("Caused by: ");
    let line = exception.line();
    let cause = if exception.is_cause {
        "Caused by: "@
    } else {
        seq![]
    };
    let message = match exception.message {
        Some(message) => ": "@ + message,
        None => seq![],
    };
    let class_part = exception.container + exception.class;
    let trimmed = cause + class_part + message;
    assert(line =~= exception.indent + trimmed);
    lemma_word_one_line(exception.class);
    if exception.container.len() > 0 {
        lemma_word_one_line(exception.container);
    }
    lemma_class_part_has_no(exception, '\n');
    lemma_class_part_has_no(exception, ' ');
    assert(class_part.len() > 0);
    assert(!is_space(class_part[0])) by {
        if exception.container.len() > 0 {
            assert(class_part[0] == exception.container[0]);
        } else {
            assert(class_part[0] == exception.class[0]);
        }
    }
    assert(trimmed[0] == if exception.is_cause {
        'C'
    } else {
        class_part[0]
    });
    assert(!is_space('C'));
    lemma_trim_start_of(exception.indent, trimmed);
    if "at "@.is_prefix_of(trimmed) {
        assert(trimmed[0] == 'a' && trimmed[1] == 't' && trimmed[2] == ' ');
        if class_part.len() > 2 {
            assert(class_part[2] == ' ');
        } else if class_part.len() == 2 {
            assert(message.len() > 0);
            assert(trimmed[2] == ':');
        } else {
            assert(message.len() > 0);
            assert(trimmed[1] == ':');
        }
    }
    if line.contains('\n') {
        let i = choose|i: int| 0 <= i < line.len() && line[i] == '\n';
        let (a, b) = (exception.indent.len() as int, cause.len() as int);
        let c = class_part.len() as int;
        if i < a {
            assert(exception.indent[i] == '\n');
        } else if i < a + b {
            assert("Caused by: "@[i - a] == '\n');
        } else if i < a + b + c {
            assert(class_part[i - a - b] == '\n');
        } else {
            assert(message[i - a - b - c] == '\n');
            if i >= a + b + c + 2 {
                assert((exception.message->0)[i - a - b - c - 2] == '\n');
            }
        }
    }
}

// ---------------------------------------------------------------------------
// Whole stack traces
// ---------------------------------------------------------------------------

/// A stack trace is retraced line by line: what stands before a newline and what
/// stands behind it have nothing to do with one another. The newline stays, and
/// a carriage return before it goes.
pub proof fn law_trace_is_retraced_line_by_line(
    classes: Map<Seq<char>, ClassView>,
    above: Seq<char>,
    below: Seq<char>,
)
    requires
        above.len() > 0,
        above.last() != '\n',
        above.last() != '\r',
    ensures
        retraced(classes, above + seq!['\n'] + below) == retraced(classes, above) + seq!['\n']
            + retraced(classes, below),
        retraced(classes, above + seq!['\r', '\n'] + below) == retraced(classes, above) + seq!['\n']
            + retraced(classes, below),
{
    lemma_trace_above(classes, above, seq!['\n'], below);
    lemma_trace_above(classes, above, seq!['\r', '\n'], below);
}

proof fn lemma_trace_above(
    classes: Map<Seq<char>, ClassView>,
    above: Seq<char>,
    end: Seq<char>,
    below: Seq<char>,
)
    requires
        above.len() > 0,
        above.last() != '\n',
        above.last() != '\r',
        end == seq!['\n'] || end == seq!['\r', '\n'],
    ensures
        retraced(classes, above + end + below) == retraced(classes, above) + seq!['\n'] + retraced(
            classes,
            below,
        ),
{
    lemma_literals();
    let first = above + end;
    let whole = first + below;
    assert(first.last() == '\n');
    lemma_lines_append(first, below);
    lemma_lines_with_end(above, end);
    law_lines_end_at_newlines(seq![], seq![]);
    if below.len() > 0 {
        crate::text::lemma_newlines_between_lines(below);
        crate::text::lemma_newlines_between_lines(above);
        lemma_retraced_lines_append(classes, lines(above), lines(below));
        assert(whole.last() == below.last());
    } else {
        assert(whole =~= first);
        assert(lines(above) + lines(below) =~= lines(above));
        assert(retraced(classes, below) =~= Seq::<char>::empty());
    }
    let tail = if whole.last() == '\n' {
        "\n"@
    } else {
        seq![]
    };
    assert(retraced(classes, whole) =~= retraced(classes, above) + seq!['\n'] + retraced(
        classes,
        below,
    ));
}

/// A newline behind a text ends its last line.
proof fn lemma_lines_with_end(above: Seq<char>, end: Seq<char>)
    requires
        above.len() > 0,
        above.last() != '\n',
        above.last() != '\r',
        end == seq!['\n'] || end == seq!['\r', '\n'],
    ensures
        lines(above + end) == lines(above),
    decreases above.len(),
{
    let n = crate::text::line_len(above) as int;
    crate::text::lemma_line_len(above);
    if n >= above.len() {
        assert(!above.contains('\n'));
        law_lines_end_at_newlines(above, seq![]);
        law_lines_end_at_newlines(seq![], seq![]);
        let e = Seq::<char>::empty();
        if end == seq!['\n'] {
            assert(above + end =~= above + seq!['\n'] + e);
        } else {
            let line = above + seq!['\r'];
            assert(!line.contains('\n')) by {
                if line.contains('\n') {
                    let i = choose|i: int| 0 <= i < line.len() && line[i] == '\n';
                    assert(above[i] == '\n');
                }
            }
            law_lines_end_at_newlines(line, e);
            assert(above + end =~= line + seq!['\n'] + e);
            assert(line.drop_last() =~= above);
        }
        assert(lines(above + end) =~= seq![above]);
    } else {
        let (first, rest) = (above.take(n), above.skip(n + 1));
        assert(!first.contains('\n'));
        assert(above =~= first + seq!['\n'] + rest);
        assert(rest.len() > 0) by {
            if n + 1 == above.len() {
                assert(above.last() == above[n]);
            }
        }
        assert(rest.last() == above.last());
        law_lines_end_at_newlines(first, rest);
        law_lines_end_at_newlines(first, rest + end);
        assert(above + end =~= first + seq!['\n'] + (rest + end));
        lemma_lines_with_end(rest, end);
    }
}

} // verus!

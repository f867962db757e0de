//! What holds of mappings and of retraced stack traces in general.

use vstd::prelude::*;
use vstd::utf8::{decode_utf8, valid_utf8};

use crate::decimal::decimal_text;
use crate::error::ErrorView;
use crate::mappings::proguard::{
    container_parts, first_invalid, first_method, is_section_line, location_line, merge_mappings,
    method_name, original_frame, parse_lines, parse_mapping, parse_mappings, parse_step,
    resolved_method, retraced, retraced_exception, retraced_frame, retraced_line, retraced_lines,
    retraced_with, with_member, ClassMapping, ClassView, MethodView, ParseState,
};
use crate::text::{
    find, is_one_line, law_split_is_undone_by_joining, lemma_find_first, lemma_line_len,
    lemma_lines_append, lemma_lines_are_parts, lemma_newlines_between_lines, lemma_newlines_concat,
    lemma_occurs_in_part, lemma_one_line_has_no_newlines, lemma_rfind_last, lemma_trim_end_prefix,
    lemma_trim_idempotent, lemma_trim_start_suffix, line_len, lines, newlines, occurs, occurs_at,
    rfind, rsplit_once, split_once, strip_prefix, strip_suffix, text_view, trim, trim_end,
    trim_start, utf8_error_text,
};

verus! {

// ---------------------------------------------------------------------------
// Mappings in parts
// ---------------------------------------------------------------------------

/// A mapping in one part is what that part says.
pub proof fn law_one_part_is_the_mapping(input: Seq<char>)
    ensures
        parse_mappings(seq![input]) == parse_mapping(input),
{
    reveal_with_fuel(parse_mappings, 2);
}

pub proof fn lemma_parse_lines_append(state: ParseState, a: Seq<Seq<char>>, b: Seq<Seq<char>>)
    ensures
        parse_lines(state, a + b) == parse_lines(parse_lines(state, a), b),
    decreases b.len(),
{
    if b.len() > 0 {
        lemma_parse_lines_append(state, a, b.drop_last());
        assert((a + b).drop_last() =~= a + b.drop_last());
    }
}

/// One reader knows what another knows, and classes from before.
spec fn knows_more(
    state: ParseState,
    before: Map<Seq<char>, ClassView>,
    other: ParseState,
) -> bool {
    &&& state.open == other.open
    &&& state.classes == before.union_prefer_right(other.classes)
}

proof fn lemma_knows_more_closed(
    state: ParseState,
    before: Map<Seq<char>, ClassView>,
    other: ParseState,
)
    requires
        knows_more(state, before, other),
    ensures
        state.closed() == before.union_prefer_right(other.closed()),
{
}

proof fn lemma_knows_more_after(
    state: ParseState,
    before: Map<Seq<char>, ClassView>,
    other: ParseState,
    ls: Seq<Seq<char>>,
)
    requires
        knows_more(state, before, other),
    ensures
        knows_more(parse_lines(state, ls), before, parse_lines(other, ls)),
    decreases ls.len(),
{
    if ls.len() > 0 {
        lemma_knows_more_after(state, before, other, ls.drop_last());
        let (s, o) = (parse_lines(state, ls.drop_last()), parse_lines(other, ls.drop_last()));
        lemma_knows_more_closed(s, before, o);
    }
}

/// What a mapping file says, where a section starts behind a newline: what its
/// first part says, and, of classes that have a section in the second part, what
/// that one says.
pub proof fn lemma_sections_follow(first: Seq<char>, second: Seq<char>)
    requires
        first.len() == 0 || first.last() == '\n',
        lines(second).len() > 0 ==> is_section_line(lines(second)[0]),
    ensures
        parse_mapping(first + second) == parse_mapping(first).union_prefer_right(
            parse_mapping(second),
        ),
{
    let a = parse_mapping(first);
    lemma_lines_append(first, second);
    let ls = lines(second);
    let start = parse_lines(ParseState::empty(), lines(first));
    lemma_parse_lines_append(ParseState::empty(), lines(first), ls);
    if ls.len() > 0 {
        let rest = ls.drop_first();
        assert(ls =~= seq![ls[0]] + rest);
        let s = parse_step(start, ls[0]);
        let o = parse_step(ParseState::empty(), ls[0]);
        lemma_parse_lines_append(start, seq![ls[0]], rest);
        lemma_parse_lines_append(ParseState::empty(), seq![ls[0]], rest);
        assert(parse_lines(start, seq![ls[0]]) == s) by {
            reveal_with_fuel(parse_lines, 2);
        }
        assert(parse_lines(ParseState::empty(), seq![ls[0]]) == o) by {
            reveal_with_fuel(parse_lines, 2);
        }
        assert(a.union_prefer_right(o.classes) =~= a);
        lemma_knows_more_after(s, a, o, rest);
        lemma_knows_more_closed(parse_lines(s, rest), a, parse_lines(o, rest));
    } else {
        assert(parse_lines(start, ls) == start);
        assert(a.union_prefer_right(parse_mapping(second)) =~= a);
    }
}

/// A mapping file can be cut in two where a section starts, behind a newline,
/// if no class has a section in both parts.
pub proof fn law_mapping_can_be_split(first: Seq<char>, second: Seq<char>)
    requires
        first.len() == 0 || first.last() == '\n',
        lines(second).len() > 0 ==> is_section_line(lines(second)[0]),
        forall|name: Seq<char>|
            !(parse_mapping(first).contains_key(name) && #[trigger] parse_mapping(
                second,
            ).contains_key(name)),
    ensures
        parse_mappings(seq![first, second]) == parse_mapping(first + second),
{
    let inputs = seq![first, second];
    assert(inputs.drop_last() =~= seq![first]);
    law_one_part_is_the_mapping(first);
    lemma_sections_follow(first, second);
    assert(parse_mappings(inputs) =~= parse_mapping(first + second));
}

/// The parts meet where a section starts, behind a newline.
pub open spec fn are_cut_at_sections(parts: Seq<Seq<char>>) -> bool {
    &&& forall|i: int|
        0 <= i < parts.len() - 1 ==> (#[trigger] parts[i]).len() == 0 || parts[i].last() == '\n'
    &&& forall|i: int|
        0 < i < parts.len() && lines(#[trigger] parts[i]).len() > 0 ==> is_section_line(
            lines(parts[i])[0],
        )
}

/// No class has a section in two of the parts.
pub open spec fn share_no_class(parts: Seq<Seq<char>>) -> bool {
    forall|i: int, j: int, name: Seq<char>|
        0 <= i < j < parts.len() ==> !(#[trigger] parse_mapping(parts[i]).contains_key(name)
            && #[trigger] parse_mapping(parts[j]).contains_key(name))
}

/// What a mapping knows comes from one of its parts.
proof fn lemma_some_part_knows(parts: Seq<Seq<char>>, name: Seq<char>)
    requires
        parse_mappings(parts).contains_key(name),
    ensures
        exists|i: int|
            0 <= i < parts.len() && #[trigger] parse_mapping(parts[i]).contains_key(name),
    decreases parts.len(),
{
    if !parse_mapping(parts[parts.len() - 1]).contains_key(name) {
        let front = parts.drop_last();
        lemma_some_part_knows(front, name);
        let i = choose|i: int|
            0 <= i < front.len() && #[trigger] parse_mapping(front[i]).contains_key(name);
        assert(parse_mapping(parts[i]).contains_key(name));
    }
}

/// What one part says of a class is what the whole mapping says of it.
proof fn lemma_part_decides(parts: Seq<Seq<char>>, i: int, name: Seq<char>)
    requires
        share_no_class(parts),
        0 <= i < parts.len(),
        parse_mapping(parts[i]).contains_key(name),
    ensures
        parse_mappings(parts).contains_pair(name, parse_mapping(parts[i])[name]),
    decreases parts.len(),
{
    let front = parts.drop_last();
    assert(share_no_class(front));
    if i < parts.len() - 1 {
        lemma_part_decides(front, i, name);
    } else if parse_mappings(front).contains_key(name) {
        lemma_some_part_knows(front, name);
        let j = choose|j: int|
            0 <= j < front.len() && #[trigger] parse_mapping(front[j]).contains_key(name);
        assert(parse_mapping(parts[j]).contains_key(name));
    }
}

/// Parts that each end with a newline do so together.
proof fn lemma_flattened_ends(parts: Seq<Seq<char>>)
    requires
        forall|i: int|
            0 <= i < parts.len() ==> (#[trigger] parts[i]).len() == 0 || parts[i].last() == '\n',
    ensures
        parts.flatten().len() == 0 || parts.flatten().last() == '\n',
    decreases parts.len(),
{
    if parts.len() > 0 {
        lemma_flattened_ends(parts.drop_last());
        assert(parts == parts.drop_last().push(parts.last()));
        parts.drop_last().lemma_flatten_push(parts.last());
    }
}

/// A mapping file can be cut in any number of parts where sections start, if no
/// class has a section in two of them.
pub proof fn law_mapping_can_be_in_parts(parts: Seq<Seq<char>>)
    requires
        are_cut_at_sections(parts),
        share_no_class(parts),
    ensures
        parse_mappings(parts) == parse_mapping(parts.flatten()),
    decreases parts.len(),
{
    if parts.len() > 0 {
        let front = parts.drop_last();
        let last = parts.last();
        law_mapping_can_be_in_parts(front);
        assert(parts == front.push(last));
        front.lemma_flatten_push(last);
        lemma_flattened_ends(front);
        assert forall|name: Seq<char>|
            !(parse_mapping(front.flatten()).contains_key(name) && #[trigger] parse_mapping(
                last,
            ).contains_key(name)) by {
            if parse_mappings(front).contains_key(name) {
                lemma_some_part_knows(front, name);
                let i = choose|i: int|
                    0 <= i < front.len() && #[trigger] parse_mapping(front[i]).contains_key(name);
                assert(parse_mapping(parts[i]).contains_key(name));
                assert(parts[parts.len() - 1] == last);
            }
        }
        if parts.len() == 1 {
            law_one_part_is_the_mapping(last);
            assert(parts =~= seq![last]);
            assert(front.flatten() + last =~= last);
        } else {
            law_mapping_can_be_split(front.flatten(), last);
            assert(seq![front.flatten(), last].drop_last() =~= seq![front.flatten()]);
            law_one_part_is_the_mapping(front.flatten());
        }
    }
}

/// A part can be read last as well as in its place.
proof fn lemma_part_read_last(parts: Seq<Seq<char>>, i: int)
    requires
        share_no_class(parts),
        0 <= i < parts.len(),
    ensures
        share_no_class(parts.remove(i)),
        parse_mappings(parts) == merge_mappings(
            parse_mappings(parts.remove(i)),
            parse_mapping(parts[i]),
        ),
{
    let others = parts.remove(i);
    let place = |k: int| if k < i { k } else { k + 1 };
    assert forall|k: int| 0 <= k < others.len() implies #[trigger] others[k] == parts[place(k)] by {
    }
    assert(share_no_class(others));
    let whole = parse_mappings(parts);
    let moved = merge_mappings(parse_mappings(others), parse_mapping(parts[i]));
    assert forall|name: Seq<char>| whole.contains_key(name) implies #[trigger] moved.contains_key(
        name,
    ) && moved[name] == whole[name] by {
        lemma_some_part_knows(parts, name);
        let k = choose|k: int|
            0 <= k < parts.len() && #[trigger] parse_mapping(parts[k]).contains_key(name);
        lemma_part_decides(parts, k, name);
        if k == i {
            if parse_mappings(others).contains_key(name) {
                lemma_some_part_knows(others, name);
                let j = choose|j: int|
                    0 <= j < others.len() && #[trigger] parse_mapping(others[j]).contains_key(
                        name,
                    );
                assert(parse_mapping(parts[place(j)]).contains_key(name));
            }
        } else {
            let j = if k < i { k } else { k - 1 };
            assert(others[j] == parts[k]);
            lemma_part_decides(others, j, name);
        }
    }
    assert forall|name: Seq<char>| moved.contains_key(name) implies #[trigger] whole.contains_key(
        name,
    ) by {
        if parse_mapping(parts[i]).contains_key(name) {
            lemma_part_decides(parts, i, name);
        } else {
            lemma_some_part_knows(others, name);
            let j = choose|j: int|
                0 <= j < others.len() && #[trigger] parse_mapping(others[j]).contains_key(name);
            lemma_part_decides(parts, place(j), name);
        }
    }
    assert(whole =~= moved);
}

/// The order in which parts are read does not matter, if no class has a section
/// in two of them.
pub proof fn law_parts_can_be_reordered(parts: Seq<Seq<char>>, reordered: Seq<Seq<char>>)
    requires
        share_no_class(parts),
        reordered.to_multiset() == parts.to_multiset(),
    ensures
        parse_mappings(reordered) == parse_mappings(parts),
    decreases reordered.len(),
{
    parts.to_multiset_ensures();
    reordered.to_multiset_ensures();
    if reordered.len() > 0 {
        let last = reordered.len() - 1;
        assert(parts.to_multiset().contains(reordered[last]));
        let i = choose|i: int| 0 <= i < parts.len() && parts[i] == reordered[last];
        lemma_part_read_last(parts, i);
        assert(reordered.drop_last() =~= reordered.remove(last));
        law_parts_can_be_reordered(parts.remove(i), reordered.drop_last());
    }
}

// ---------------------------------------------------------------------------
// Lines that stay
// ---------------------------------------------------------------------------

/// No class of a mapping is named in a text.
pub open spec fn names_no_class(classes: Map<Seq<char>, ClassView>, text: Seq<char>) -> bool {
    forall|name: Seq<char>| #[trigger] classes.contains_key(name) ==> !occurs(text, name)
}

/// The name behind a container is a part of the text.
proof fn lemma_container_parts(qualified: Seq<char>)
    ensures
        container_parts(qualified).0 + container_parts(qualified).1 == qualified,
{
    reveal_strlit("/");
    lemma_rfind_last(qualified, "/"@);
}

proof fn lemma_part_occurs(text: Seq<char>, start: int, end: int)
    requires
        0 <= start <= end <= text.len(),
    ensures
        occurs(text, text.subrange(start, end)),
{
    assert(occurs_at(text, text.subrange(start, end), start));
}

proof fn lemma_frame_stays(classes: Map<Seq<char>, ClassView>, rest: Seq<char>)
    requires
        names_no_class(classes, rest),
    ensures
        retraced_frame(classes, rest) == rest,
{
    lemma_find_first(rest, "("@);
    match find(rest, "("@) {
        None => {},
        Some(paren) => {
            let (container, qualified) = container_parts(rest.take(paren));
            lemma_container_parts(rest.take(paren));
            lemma_rfind_last(qualified, "."@);
            match rfind(qualified, "."@) {
                None => {},
                Some(dot) => {
                    let n = container.len() as int;
                    assert(qualified.take(dot) =~= rest.subrange(n, n + dot)) by {
                        assert forall|i: int| 0 <= i < dot implies qualified[i] == rest[n + i] by {
                            assert(rest.take(paren)[n + i] == qualified[i]);
                        }
                    }
                    lemma_part_occurs(rest, n, n + dot);
                },
            }
        },
    }
}

proof fn lemma_exception_stays(classes: Map<Seq<char>, ClassView>, line: Seq<char>)
    requires
        names_no_class(classes, line),
    ensures
        retraced_exception(classes, line) == line,
{
    let trimmed = trim_start(line);
    lemma_trim_start_suffix(line);
    let class_and_rest = match strip_prefix(trimmed, "Caused by: "@) {
        Some(rest) => rest,
        None => trimmed,
    };
    let from = line.len() - class_and_rest.len();
    lemma_find_first(class_and_rest, ": "@);
    let class_part = match split_once(class_and_rest, ": "@) {
        Some((class_part, _)) => class_part,
        None => class_and_rest,
    };
    let (container, name) = container_parts(class_part);
    lemma_container_parts(class_part);
    let start = from + container.len();
    assert(name =~= line.subrange(start, start + name.len())) by {
        assert forall|i: int| 0 <= i < name.len() implies name[i] == line[start + i] by {
            assert(class_part[container.len() + i] == name[i]);
        }
    }
    lemma_part_occurs(line, start, start + name.len());
}

/// A line that names no class of the mapping stays as it is.
pub proof fn law_unrelated_line_stays(classes: Map<Seq<char>, ClassView>, line: Seq<char>)
    requires
        names_no_class(classes, line),
    ensures
        retraced_line(classes, line) == line,
{
    let trimmed = trim_start(line);
    lemma_trim_start_suffix(line);
    match strip_prefix(trimmed, "at "@) {
        Some(rest) => {
            let from = line.len() - rest.len();
            assert(rest =~= line.subrange(from, line.len() as int));
            assert forall|name: Seq<char>| #[trigger] classes.contains_key(name) implies !occurs(
                rest,
                name,
            ) by {
                if occurs(rest, name) {
                    lemma_occurs_in_part(line, from, line.len() as int, name);
                }
            }
            lemma_frame_stays(classes, rest);
        },
        None => {
            lemma_exception_stays(classes, line);
        },
    }
}

/// Lines are retraced one by one, with newlines between them.
pub proof fn lemma_retraced_lines_append(
    classes: Map<Seq<char>, ClassView>,
    a: Seq<Seq<char>>,
    b: Seq<Seq<char>>,
)
    requires
        a.len() > 0,
        b.len() > 0,
    ensures
        retraced_lines(classes, a + b) == retraced_lines(classes, a) + "\n"@ + retraced_lines(
            classes,
            b,
        ),
    decreases b.len(),
{
    assert((a + b).drop_last() =~= a + b.drop_last());
    if b.len() > 1 {
        lemma_retraced_lines_append(classes, a, b.drop_last());
    } else {
        assert(a + b.drop_last() =~= a);
        assert((a + b).last() == b[0]);
    }
}

/// A line in front of others.
proof fn lemma_retraced_front(
    classes: Map<Seq<char>, ClassView>,
    first: Seq<char>,
    rest: Seq<Seq<char>>,
)
    requires
        rest.len() > 0,
    ensures
        retraced_lines(classes, seq![first] + rest) == retraced_line(classes, first) + "\n"@
            + retraced_lines(classes, rest),
    decreases rest.len(),
{
    let all = seq![first] + rest;
    assert(all.drop_last() =~= seq![first] + rest.drop_last());
    if rest.len() > 1 {
        lemma_retraced_front(classes, first, rest.drop_last());
    } else {
        assert(retraced_lines(classes, seq![first]) == retraced_line(classes, first));
    }
}

proof fn lemma_lines_stay(classes: Map<Seq<char>, ClassView>, s: Seq<char>)
    requires
        !occurs(s, "\r\n"@),
        forall|i: int|
            0 <= i < lines(s).len() ==> retraced_line(classes, #[trigger] lines(s)[i])
                == lines(s)[i],
    ensures
        retraced(classes, s) == s,
    decreases s.len(),
{
    reveal_strlit("\n");
    reveal_strlit("\r\n");
    let n = line_len(s) as int;
    lemma_line_len(s);
    if n < s.len() {
        let first = s.take(n);
        let rest = s.skip(n + 1);
        if n > 0 && first.last() == '\r' {
            assert(s.subrange(n - 1, n + 1) =~= "\r\n"@);
            assert(occurs_at(s, "\r\n"@, n - 1));
        }
        if occurs(rest, "\r\n"@) {
            assert(rest =~= s.subrange(n + 1, s.len() as int));
            lemma_occurs_in_part(s, n + 1, s.len() as int, "\r\n"@);
        }
        assert(lines(s)[0] == first);
        if rest.len() > 0 {
            assert forall|i: int| 0 <= i < lines(rest).len() implies retraced_line(
                classes,
                #[trigger] lines(rest)[i],
            ) == lines(rest)[i] by {
                assert(lines(s)[i + 1] == lines(rest)[i]);
            }
            lemma_lines_stay(classes, rest);
            lemma_retraced_front(classes, first, lines(rest));
            assert(s =~= first + seq!['\n'] + rest);
        }
    }
}

/// A stack trace that names no class of the mapping stays as it is, if no
/// carriage return stands before a newline: such a one is dropped.
pub proof fn law_unrelated_trace_stays(classes: Map<Seq<char>, ClassView>, stacktrace: Seq<char>)
    requires
        names_no_class(classes, stacktrace),
        !occurs(stacktrace, "\r\n"@),
    ensures
        retraced(classes, stacktrace) == stacktrace,
{
    let ls = lines(stacktrace);
    assert forall|i: int| 0 <= i < ls.len() implies retraced_line(classes, #[trigger] ls[i])
        == ls[i] by {
        lemma_lines_are_parts(stacktrace, i);
        let (start, end) = choose|start: int, end: int|
            0 <= start <= end <= stacktrace.len() && ls[i] == #[trigger] stacktrace.subrange(
                start,
                end,
            );
        assert forall|name: Seq<char>| #[trigger] classes.contains_key(name) implies !occurs(
            ls[i],
            name,
        ) by {
            if occurs(ls[i], name) {
                lemma_occurs_in_part(stacktrace, start, end, name);
            }
        }
        law_unrelated_line_stays(classes, ls[i]);
    }
    lemma_lines_stay(classes, stacktrace);
}

// ---------------------------------------------------------------------------
// One line for one line
// ---------------------------------------------------------------------------

/// The names that a class brings into a stack trace are single lines.
pub open spec fn has_line_names(class: ClassView) -> bool {
    &&& is_one_line(class.original_name)
    &&& class.file_name matches Some(file) ==> is_one_line(file)
    &&& forall|i: int|
        0 <= i < class.methods.len() ==> is_one_line((#[trigger] class.methods[i]).original_name)
}

pub open spec fn has_all_line_names(classes: Map<Seq<char>, ClassView>) -> bool {
    forall|name: Seq<char>| #[trigger] classes.contains_key(name) ==> has_line_names(classes[name])
}

proof fn lemma_first_method(methods: Seq<MethodView>, accepts: spec_fn(MethodView) -> bool)
    ensures
        first_method(methods, accepts) matches Some(m) ==> methods.contains(m),
    decreases methods.len(),
{
    if methods.len() > 0 {
        lemma_first_method(methods.drop_first(), accepts);
    }
}

proof fn lemma_decimal_one_line(n: nat)
    ensures
        is_one_line(decimal_text(n)),
    decreases n,
{
    if n >= 10 {
        lemma_decimal_one_line(n / 10);
    }
}

proof fn lemma_frame_one_line(
    class: ClassView,
    container: Seq<char>,
    method: Seq<char>,
    location: Seq<char>,
)
    requires
        has_line_names(class),
        is_one_line(container),
        is_one_line(method),
    ensures
        is_one_line(original_frame(class, container, method, location)),
{
    reveal_strlit(".");
    reveal_strlit("(");
    reveal_strlit(")");
    reveal_strlit(":");
    reveal_strlit("Unknown Source");
    let line = location_line(location);
    let name = match resolved_method(class, method, line) {
        Some(m) => m.original_name,
        None => method,
    };
    assert(is_one_line(name)) by {
        lemma_first_method(class.methods, |m: MethodView| m.is_named(method));
        match line {
            Some(l) => {
                lemma_first_method(class.methods, |m: MethodView| m.covers(method, l));
            },
            None => {},
        }
    }
    if let Some(n) = line {
        lemma_decimal_one_line(n as nat);
    }
}

proof fn lemma_retraced_frame_one_line(classes: Map<Seq<char>, ClassView>, rest: Seq<char>)
    requires
        has_all_line_names(classes),
        is_one_line(rest),
    ensures
        is_one_line(retraced_frame(classes, rest)),
{
    reveal_strlit(".");
    lemma_find_first(rest, "("@);
    match find(rest, "("@) {
        None => {},
        Some(paren) => {
            let before = rest.take(paren);
            let (container, qualified) = container_parts(before);
            lemma_container_parts(before);
            assert(container =~= before.subrange(0, container.len() as int));
            assert(qualified =~= before.subrange(container.len() as int, before.len() as int));
            lemma_rfind_last(qualified, "."@);
            match rfind(qualified, "."@) {
                None => {},
                Some(dot) => {
                    let name = qualified.take(dot);
                    if classes.contains_key(name) {
                        let method = qualified.skip(dot + 1);
                        lemma_frame_one_line(
                            classes[name],
                            container,
                            method,
                            rest.skip(paren),
                        );
                    }
                },
            }
        },
    }
}

proof fn lemma_retraced_exception_one_line(classes: Map<Seq<char>, ClassView>, line: Seq<char>)
    requires
        has_all_line_names(classes),
        is_one_line(line),
    ensures
        is_one_line(retraced_exception(classes, line)),
{
    let trimmed = trim_start(line);
    lemma_trim_start_suffix(line);
    let class_and_rest = match strip_prefix(trimmed, "Caused by: "@) {
        Some(rest) => rest,
        None => trimmed,
    };
    lemma_find_first(class_and_rest, ": "@);
    let class_part = match split_once(class_and_rest, ": "@) {
        Some((class_part, _)) => class_part,
        None => class_and_rest,
    };
    let container = container_parts(class_part).0;
    lemma_container_parts(class_part);
    assert(container =~= class_part.subrange(0, container.len() as int));
}

/// A line becomes one line, if the names in the mapping are lines.
pub proof fn law_retraced_line_is_one_line(classes: Map<Seq<char>, ClassView>, line: Seq<char>)
    requires
        has_all_line_names(classes),
        is_one_line(line),
    ensures
        is_one_line(retraced_line(classes, line)),
{
    let trimmed = trim_start(line);
    lemma_trim_start_suffix(line);
    match strip_prefix(trimmed, "at "@) {
        Some(rest) => {
            lemma_retraced_frame_one_line(classes, rest);
        },
        None => {
            lemma_retraced_exception_one_line(classes, line);
        },
    }
}

proof fn lemma_newlines_in_retraced(classes: Map<Seq<char>, ClassView>, ls: Seq<Seq<char>>)
    requires
        ls.len() > 0,
        forall|i: int|
            0 <= i < ls.len() ==> is_one_line(retraced_line(classes, #[trigger] ls[i])),
    ensures
        newlines(retraced_lines(classes, ls)) == ls.len() - 1,
    decreases ls.len(),
{
    lemma_one_line_has_no_newlines(retraced_line(classes, ls.last()));
    if ls.len() > 1 {
        let rest = ls.drop_last();
        lemma_newlines_in_retraced(classes, rest);
        let a = retraced_lines(classes, rest);
        lemma_newlines_concat(a + "\n"@, retraced_line(classes, ls.last()));
        lemma_newlines_concat(a, "\n"@);
        lemma_newline_counts_once();
    }
}

proof fn lemma_newline_counts_once()
    ensures
        newlines("\n"@) == 1,
{
    reveal_strlit("\n");
    reveal_with_fuel(newlines, 2);
}

/// Retracing keeps how many lines a stack trace has, if the names in the
/// mapping are lines.
pub proof fn law_retracing_keeps_newlines(
    classes: Map<Seq<char>, ClassView>,
    stacktrace: Seq<char>,
)
    requires
        has_all_line_names(classes),
    ensures
        newlines(retraced(classes, stacktrace)) == newlines(stacktrace),
{
    let ls = lines(stacktrace);
    if stacktrace.len() > 0 {
        lemma_newlines_between_lines(stacktrace);
        assert forall|i: int| 0 <= i < ls.len() implies is_one_line(
            retraced_line(classes, #[trigger] ls[i]),
        ) by {
            lemma_lines_are_parts(stacktrace, i);
            law_retraced_line_is_one_line(classes, ls[i]);
        }
        lemma_newlines_in_retraced(classes, ls);
        lemma_newline_counts_once();
        let body = retraced_lines(classes, ls);
        if stacktrace.last() == '\n' {
            lemma_newlines_concat(body, "\n"@);
        }
    }
}

// ---------------------------------------------------------------------------
// Names in mapping files
// ---------------------------------------------------------------------------

/// The name of a class and the names of its methods are single lines.
pub open spec fn has_line_class_names(class: ClassView) -> bool {
    &&& is_one_line(class.original_name)
    &&& forall|i: int|
        0 <= i < class.methods.len() ==> is_one_line((#[trigger] class.methods[i]).original_name)
}

proof fn lemma_one_line_trim(s: Seq<char>)
    requires
        is_one_line(s),
    ensures
        is_one_line(trim_end(s)),
        is_one_line(trim(s)),
{
    lemma_trim_start_suffix(s);
    lemma_trim_end_prefix(s);
    lemma_trim_end_prefix(trim_start(s));
}

proof fn lemma_one_line_split(s: Seq<char>, separator: Seq<char>)
    requires
        is_one_line(s),
    ensures
        split_once(s, separator) matches Some((a, b)) ==> is_one_line(a) && is_one_line(b),
        rsplit_once(s, separator) matches Some((a, b)) ==> is_one_line(a) && is_one_line(b),
{
    lemma_find_first(s, separator);
    lemma_rfind_last(s, separator);
}

proof fn lemma_method_name_one_line(s: Seq<char>)
    requires
        is_one_line(s),
    ensures
        method_name(s) matches Some(name) ==> is_one_line(name),
{
    lemma_find_first(s, "("@);
    if let Some(i) = find(s, "("@) {
        lemma_one_line_split(s.take(i), " "@);
    }
}

proof fn lemma_member_names(class: ClassView, line: Seq<char>)
    requires
        has_line_class_names(class),
        is_one_line(line),
    ensures
        has_line_class_names(with_member(class, line)),
{
    lemma_one_line_split(line, " -> "@);
    if let Some((original, _)) = rsplit_once(line, " -> "@) {
        lemma_method_name_one_line(original);
        lemma_one_line_trim(original);
        lemma_one_line_split(trim(original), ":"@);
        if let Some((_, rest)) = split_once(trim(original), ":"@) {
            lemma_one_line_split(rest, ":"@);
            if let Some((_, signature)) = split_once(rest, ":"@) {
                lemma_method_name_one_line(signature);
            }
        }
    }
}

/// All classes that a reader knows have names that are lines.
spec fn knows_line_names(state: ParseState) -> bool {
    &&& forall|name: Seq<char>| #[trigger]
        state.classes.contains_key(name) ==> has_line_class_names(state.classes[name])
    &&& state.open matches Some((_, class)) ==> has_line_class_names(class)
}

proof fn lemma_step_keeps_line_names(state: ParseState, raw: Seq<char>)
    requires
        knows_line_names(state),
        is_one_line(raw),
    ensures
        knows_line_names(parse_step(state, raw)),
{
    let line = trim_end(raw);
    lemma_one_line_trim(raw);
    lemma_one_line_trim(line);
    if let Some((_, class)) = state.open {
        lemma_member_names(class, trim(line));
    }
    if let Some(body) = strip_suffix(line, ":"@) {
        lemma_one_line_split(body, " -> "@);
        if let Some((original, _)) = split_once(body, " -> "@) {
            lemma_one_line_trim(original);
        }
    }
}

proof fn lemma_lines_keep_line_names(state: ParseState, ls: Seq<Seq<char>>)
    requires
        knows_line_names(state),
        forall|i: int| 0 <= i < ls.len() ==> is_one_line(#[trigger] ls[i]),
    ensures
        knows_line_names(parse_lines(state, ls)),
    decreases ls.len(),
{
    if ls.len() > 0 {
        lemma_lines_keep_line_names(state, ls.drop_last());
        lemma_step_keeps_line_names(parse_lines(state, ls.drop_last()), ls.last());
    }
}

/// Whatever mapping files hold, the names of classes and methods that are
/// read from them are single lines.
pub proof fn law_parsed_names_are_lines(inputs: Seq<Seq<char>>, name: Seq<char>)
    requires
        parse_mappings(inputs).contains_key(name),
    ensures
        has_line_class_names(parse_mappings(inputs)[name]),
    decreases inputs.len(),
{
    let first = parse_mappings(inputs.drop_last());
    let second = parse_mapping(inputs.last());
    if first.contains_key(name) {
        law_parsed_names_are_lines(inputs.drop_last(), name);
    }
    if second.contains_key(name) {
        let ls = lines(inputs.last());
        assert forall|i: int| 0 <= i < ls.len() implies is_one_line(#[trigger] ls[i]) by {
            lemma_lines_are_parts(inputs.last(), i);
        }
        lemma_lines_keep_line_names(ParseState::empty(), ls);
    }
}

// ---------------------------------------------------------------------------
// What parts say together
// ---------------------------------------------------------------------------

/// What one more part adds to a mapping. Of a class that both know, the name is
/// that of the earlier parts, the source file too where they name one, the methods
/// of the new part come behind the others, and fields are those of both, where the
/// new part has the last word. Of other classes it is what the one part says.
pub proof fn law_one_more_part(parts: Seq<Seq<char>>, part: Seq<char>, name: Seq<char>)
    ensures
        ({
            let (before, new) = (parse_mappings(parts), parse_mapping(part));
            let after = parse_mappings(parts.push(part));
            let (a, b, c) = (before[name], new[name], after[name]);
            &&& after.contains_key(name) <==> before.contains_key(name) || new.contains_key(name)
            &&& before.contains_key(name) && !new.contains_key(name) ==> c == a
            &&& !before.contains_key(name) && new.contains_key(name) ==> c == b
            &&& before.contains_key(name) && new.contains_key(name) ==> {
                &&& c.original_name == a.original_name
                &&& a.file_name is Some ==> c.file_name == a.file_name
                &&& a.file_name is None ==> c.file_name == b.file_name
                &&& c.methods == a.methods + b.methods
                &&& forall|field: Seq<char>| #[trigger]
                    c.fields.contains_key(field) <==> a.fields.contains_key(field)
                        || b.fields.contains_key(field)
                &&& forall|field: Seq<char>| #[trigger]
                    b.fields.contains_key(field) ==> c.fields[field] == b.fields[field]
                &&& forall|field: Seq<char>| #[trigger]
                    a.fields.contains_key(field) && !b.fields.contains_key(field)
                        ==> c.fields[field] == a.fields[field]
            }
        }),
{
    let all = parts.push(part);
    assert(all.drop_last() =~= parts);
    assert(all.last() == part);
}

/// Mapping files that are UTF-8 are read as one mapping, in their order. Of those
/// that are not, the first is refused with what is wrong with it.
pub proof fn law_first_file_that_is_no_text_is_refused(
    files: Seq<Seq<u8>>,
    stacktrace: Seq<char>,
    i: int,
)
    requires
        0 <= i <= files.len(),
        forall|j: int| 0 <= j < i ==> valid_utf8(#[trigger] files[j]),
        i < files.len() ==> !valid_utf8(files[i]),
    ensures
        i < files.len() ==> retraced_with(files, stacktrace) == Err::<Seq<char>, _>(
            ErrorView::BadRequest("invalid proguard mapping: "@ + utf8_error_text(files[i])),
        ),
        i == files.len() ==> retraced_with(files, stacktrace) == Ok::<_, ErrorView>(
            retraced(
                parse_mappings(Seq::new(files.len(), |k: int| decode_utf8(files[k]))),
                stacktrace,
            ),
        ),
{
    lemma_first_invalid(files, i);
    assert(files.map_values(|file: Seq<u8>| decode_utf8(file)) =~= Seq::new(
        files.len(),
        |k: int| decode_utf8(files[k]),
    ));
}

proof fn lemma_first_invalid(files: Seq<Seq<u8>>, i: int)
    requires
        0 <= i <= files.len(),
        forall|j: int| 0 <= j < i ==> valid_utf8(#[trigger] files[j]),
        i < files.len() ==> !valid_utf8(files[i]),
    ensures
        first_invalid(files) == if i < files.len() {
            Some(files[i])
        } else {
            None
        },
    decreases i,
{
    if i > 0 {
        let rest = files.drop_first();
        assert(valid_utf8(files[0]));
        assert forall|j: int| 0 <= j < i - 1 implies valid_utf8(#[trigger] rest[j]) by {
            assert(rest[j] == files[j + 1]);
        }
        lemma_first_invalid(rest, i - 1);
    }
}

/// A line starts the section of a class: it has an arrow, and a colon at its end.
pub open spec fn names_class(line: Seq<char>, name: Seq<char>) -> bool {
    exists|original: Seq<char>, obfuscated: Seq<char>|
        trim_end(line) == #[trigger] (original + " -> "@ + obfuscated + ":"@) && trim(obfuscated)
            == name
}

proof fn lemma_known_class(ls: Seq<Seq<char>>, name: Seq<char>)
    ensures
        parse_lines(ParseState::empty(), ls).closed().contains_key(name) ==> exists|i: int|
            0 <= i < ls.len() && names_class(#[trigger] ls[i], name),
    decreases ls.len(),
{
    if ls.len() > 0 {
        let rest = ls.drop_last();
        let raw = ls.last();
        let line = trim_end(raw);
        lemma_known_class(rest, name);
        if exists|i: int| 0 <= i < rest.len() && names_class(#[trigger] rest[i], name) {
            let i = choose|i: int| 0 <= i < rest.len() && names_class(#[trigger] rest[i], name);
            assert(names_class(ls[i], name));
        }
        if let Some(body) = strip_suffix(line, ":"@) {
            law_split_is_undone_by_joining(body, " -> "@);
            if let Some((original, obfuscated)) = split_once(body, " -> "@) {
                assert(line =~= original + " -> "@ + obfuscated + ":"@);
                if trim(obfuscated) == name {
                    assert(names_class(raw, name));
                    assert(ls[ls.len() - 1] == raw);
                }
            }
        }
    }
}

/// A mapping file knows no class but those that one of its lines starts the
/// section of.
pub proof fn law_known_class_has_a_section(input: Seq<char>, name: Seq<char>)
    requires
        parse_mapping(input).contains_key(name),
    ensures
        exists|i: int| 0 <= i < lines(input).len() && names_class(#[trigger] lines(input)[i], name),
{
    lemma_known_class(lines(input), name);
}

/// The names that a reader knows have no white space around them.
spec fn knows_trimmed_names(class: ClassView) -> bool {
    &&& trim(class.original_name) == class.original_name
    &&& forall|i: int|
        0 <= i < class.methods.len() ==> trim((#[trigger] class.methods[i]).obfuscated_name)
            == class.methods[i].obfuscated_name
    &&& forall|name: Seq<char>| #[trigger]
        class.fields.contains_key(name) ==> trim(name) == name
}

proof fn lemma_lines_trim_names(ls: Seq<Seq<char>>)
    ensures
        ({
            let state = parse_lines(ParseState::empty(), ls);
            &&& forall|name: Seq<char>| #[trigger]
                state.classes.contains_key(name) ==> trim(name) == name && knows_trimmed_names(
                    state.classes[name],
                )
            &&& state.open matches Some((name, class)) ==> trim(name) == name
                && knows_trimmed_names(class)
        }),
    decreases ls.len(),
{
    if ls.len() > 0 {
        let before = parse_lines(ParseState::empty(), ls.drop_last());
        lemma_lines_trim_names(ls.drop_last());
        let line = trim_end(ls.last());
        if let Some(body) = strip_suffix(line, ":"@) {
            if let Some((original, obfuscated)) = split_once(body, " -> "@) {
                lemma_trim_idempotent(original);
                lemma_trim_idempotent(obfuscated);
            }
        }
        if let Some((_, after)) = rsplit_once(trim(line), " -> "@) {
            lemma_trim_idempotent(after);
        }
        if let Some((_, class)) = before.open {
            let after = with_member(class, trim(line));
            assert(knows_trimmed_names(after));
        }
    }
}

/// The names in mapping files are read without the white space around them: those of
/// classes, original and obfuscated, and the obfuscated ones of methods and fields.
pub proof fn law_names_are_read_without_white_space(input: Seq<char>, name: Seq<char>)
    requires
        parse_mapping(input).contains_key(name),
    ensures
        trim(name) == name,
        trim(parse_mapping(input)[name].original_name) == parse_mapping(input)[name].original_name,
        forall|i: int|
            0 <= i < parse_mapping(input)[name].methods.len() ==> trim(
                (#[trigger] parse_mapping(input)[name].methods[i]).obfuscated_name,
            ) == parse_mapping(input)[name].methods[i].obfuscated_name,
        forall|field: Seq<char>| #[trigger]
            parse_mapping(input)[name].fields.contains_key(field) ==> trim(field) == field,
{
    lemma_lines_trim_names(lines(input));
}

/// A class by what it holds.
pub proof fn law_class_by_what_it_holds(class: ClassMapping)
    ensures
        class@.original_name == class.original_name@,
        class@.file_name == text_view(class.file_name),
        class@.methods.len() == class.methods@.len(),
        forall|i: int|
            0 <= i < class.methods@.len() ==> #[trigger] class@.methods[i] == (MethodView {
                original_name: class.methods@[i].original_name@,
                obfuscated_name: class.methods@[i].obfuscated_name@,
                start_line: class.methods@[i].start_line,
                end_line: class.methods@[i].end_line,
            }),
        forall|name: Seq<char>| #[trigger]
            class@.fields.contains_key(name) <==> class.fields@.contains_key(name),
        forall|name: Seq<char>| #[trigger]
            class.fields@.contains_key(name) ==> class@.fields[name] == class.fields@[name]@,
{
}

} // verus!

use sourcemap_backend::error::AppError;
use sourcemap_backend::mappings::proguard::{
    extract_file_name, invalid_mapping, parse_class_line, parse_method_name,
    parse_method_with_lines, parse_stacktrace_line_number, proguard_s3_key, proguard_s3_prefix,
    retrace_stacktrace, split_container_prefix, ClassMapping, ProguardMapping,
};
use sourcemap_backend::project::ProjectId;

fn parse_test_mapping(input: &str) -> ProguardMapping {
    ProguardMapping::parse(input).unwrap_or_else(|_| panic!("mapping should be read"))
}

fn parse_test_mappings(inputs: &[&str]) -> ProguardMapping {
    ProguardMapping::parse_many(inputs).unwrap_or_else(|_| panic!("mappings should be read"))
}

fn class_of<'a>(mapping: &'a ProguardMapping, name: &str) -> &'a ClassMapping {
    mapping.classes.get(name).unwrap()
}

fn chars(text: &str) -> Vec<char> {
    text.chars().collect()
}

fn text(chars: &[char]) -> String {
    chars.iter().collect()
}

const SAMPLE_MAPPING: &str = r#"core.file.FileIO -> a.a.a:
# {"fileName":"FileIO.java","id":"sourceFile"}
    java.nio.file.Path file -> a
    java.nio.charset.Charset charset -> b
    java.lang.Object root -> c
    boolean loaded -> d
    29:33:void <init>(java.nio.file.Path,java.nio.charset.Charset,java.lang.Object) -> <init>
    42:43:void <init>(java.nio.file.Path,java.lang.Object) -> <init>
    52:54:core.file.FileIO setRoot(java.lang.Object) -> a
    65:67:java.lang.Object getRoot() -> a
    java.lang.Object load() -> b
    core.file.FileIO save(java.nio.file.attribute.FileAttribute[]) -> a
    92:92:core.file.FileIO reload() -> c
core.file.Validatable -> a.a.b:
# {"fileName":"Validatable.java","id":"sourceFile"}
    core.file.FileIO validate(core.file.Validatable$Scope) -> a
    26:26:core.file.FileIO validate() -> a_
"#;

#[test]
fn parse_class_mappings() {
    let mapping = parse_test_mapping(SAMPLE_MAPPING);
    assert!(mapping.classes.contains_key("a.a.a"));
    assert!(mapping.classes.contains_key("a.a.b"));

    let file_io = class_of(&mapping, "a.a.a");
    assert_eq!(file_io.original_name, "core.file.FileIO");
    assert_eq!(file_io.file_name.as_deref(), Some("FileIO.java"));
}

#[test]
fn parse_field_mappings() {
    let mapping = parse_test_mapping(SAMPLE_MAPPING);
    let file_io = class_of(&mapping, "a.a.a");
    assert_eq!(file_io.fields.get("a"), Some(&"file".to_string()));
    assert_eq!(file_io.fields.get("b"), Some(&"charset".to_string()));
    assert_eq!(file_io.fields.get("d"), Some(&"loaded".to_string()));
}

#[test]
fn parse_method_mappings() {
    let mapping = parse_test_mapping(SAMPLE_MAPPING);
    let file_io = class_of(&mapping, "a.a.a");

    let init_methods: Vec<_> = file_io
        .methods
        .iter()
        .filter(|m| m.obfuscated_name == "<init>")
        .collect();
    assert_eq!(init_methods.len(), 2);
    assert_eq!(init_methods[0].start_line, Some(29));
    assert_eq!(init_methods[0].end_line, Some(33));
    assert_eq!(init_methods[1].start_line, Some(42));
    assert_eq!(init_methods[1].end_line, Some(43));
}

#[test]
fn parse_method_mappings_without_line_numbers() {
    let mapping = parse_test_mapping(SAMPLE_MAPPING);
    let file_io = class_of(&mapping, "a.a.a");

    let load_method = file_io
        .methods
        .iter()
        .find(|m| m.obfuscated_name == "b")
        .expect("load method should be retained");

    assert_eq!(load_method.original_name, "load");
    assert_eq!(load_method.start_line, None);
    assert_eq!(load_method.end_line, None);
}

#[test]
fn resolve_class() {
    let mapping = parse_test_mapping(SAMPLE_MAPPING);
    let result = mapping.resolve("a.a.a", None, None).unwrap();
    assert_eq!(result.source, "core.file.FileIO");
}

#[test]
fn resolve_method_with_line() {
    let mapping = parse_test_mapping(SAMPLE_MAPPING);
    let result = mapping.resolve("a.a.a", Some("c"), Some(92)).unwrap();
    assert_eq!(result.source, "core.file.FileIO");
    assert_eq!(result.name.as_deref(), Some("reload"));
}

#[test]
fn resolve_method_without_line() {
    let mapping = parse_test_mapping(SAMPLE_MAPPING);
    let result = mapping.resolve("a.a.a", Some("a"), None).unwrap();
    assert_eq!(result.source, "core.file.FileIO");
    // Should find one of the methods named "a" (setRoot or getRoot)
    assert!(result.name.is_some());
}

#[test]
fn resolve_unknown_class() {
    let mapping = parse_test_mapping(SAMPLE_MAPPING);
    let result = mapping.resolve("z.z.z", None, None);
    assert!(result.is_err());
}

#[test]
fn retrace_stacktrace_full() {
    let mapping = parse_test_mapping(SAMPLE_MAPPING);
    let input = "\
java.lang.NullPointerException: something broke
\tat a.a.a.c(SourceFile:92)
\tat a.a.a.<init>(SourceFile:30)
\tat a.a.b.a_(SourceFile:26)";

    let output = mapping.retrace(input);
    assert_eq!(
        output,
        "\
java.lang.NullPointerException: something broke
\tat core.file.FileIO.reload(FileIO.java:92)
\tat core.file.FileIO.<init>(FileIO.java:30)
\tat core.file.Validatable.validate(Validatable.java:26)"
    );
}

#[test]
fn retrace_preserves_unknown_lines() {
    let mapping = parse_test_mapping(SAMPLE_MAPPING);
    let input = "\
java.lang.RuntimeException: oops
\tat a.a.a.c(SourceFile:92)
\tat com.unknown.Foo.bar(Foo.java:10)
\t... 3 more";

    let output = mapping.retrace(input);
    assert_eq!(
        output,
        "\
java.lang.RuntimeException: oops
\tat core.file.FileIO.reload(FileIO.java:92)
\tat com.unknown.Foo.bar(Foo.java:10)
\t... 3 more"
    );
}

#[test]
fn retrace_caused_by() {
    let mapping = parse_test_mapping(SAMPLE_MAPPING);
    let input = "Caused by: a.a.a: some message";
    let output = mapping.retrace(input);
    assert_eq!(output, "Caused by: core.file.FileIO: some message");
}

#[test]
fn retrace_unknown_source() {
    let mapping = parse_test_mapping(SAMPLE_MAPPING);
    let input = "\tat a.a.a.c(Unknown Source)";
    let output = mapping.retrace(input);
    assert_eq!(output, "\tat core.file.FileIO.reload(FileIO.java)");
}

#[test]
fn retrace_unknown_source_uses_method_without_line_numbers() {
    let mapping = parse_test_mapping(SAMPLE_MAPPING);
    let input = "\tat a.a.a.b(Unknown Source)";
    let output = mapping.retrace(input);
    assert_eq!(output, "\tat core.file.FileIO.load(FileIO.java)");
}

#[test]
fn retrace_stacktrace_with_container_prefix() {
    let mapping = parse_test_mapping(SAMPLE_MAPPING);
    let input = "\tat tweaks-3.3.6-obfuscated.jar//a.a.a.c(SourceFile:92)";
    let output = mapping.retrace(input);
    assert_eq!(
        output,
        "\tat tweaks-3.3.6-obfuscated.jar//core.file.FileIO.reload(FileIO.java:92)"
    );
}

#[test]
fn retrace_caused_by_with_container_prefix() {
    let mapping = parse_test_mapping(SAMPLE_MAPPING);
    let input = "Caused by: tweaks-3.3.6-obfuscated.jar//a.a.a: some message";
    let output = mapping.retrace(input);
    assert_eq!(
        output,
        "Caused by: tweaks-3.3.6-obfuscated.jar//core.file.FileIO: some message"
    );
}

#[test]
fn parse_many_combines_split_mapping_files() {
    const PART_ONE: &str = r#"core.file.FileIO -> a.a.a:
# {"fileName":"FileIO.java","id":"sourceFile"}
    92:92:core.file.FileIO reload() -> c
"#;
    const PART_TWO: &str = r#"core.file.Validatable -> a.a.b:
# {"fileName":"Validatable.java","id":"sourceFile"}
    26:26:core.file.FileIO validate() -> a_
"#;

    let mapping = parse_test_mappings(&[PART_ONE, PART_TWO]);

    assert_eq!(class_of(&mapping, "a.a.a").original_name, "core.file.FileIO");
    assert_eq!(
        class_of(&mapping, "a.a.b").file_name.as_deref(),
        Some("Validatable.java")
    );
}

#[test]
fn parse_many_merges_split_class_mappings() {
    const PART_ONE: &str = r#"core.file.FileIO -> a.a.a:
# {"fileName":"FileIO.java","id":"sourceFile"}
    92:92:core.file.FileIO reload() -> c
"#;
    const PART_TWO: &str = r#"core.file.FileIO -> a.a.a:
    java.lang.Object load() -> b
"#;

    let mapping = parse_test_mappings(&[PART_ONE, PART_TWO]);
    let file_io = class_of(&mapping, "a.a.a");

    assert_eq!(file_io.file_name.as_deref(), Some("FileIO.java"));
    assert!(file_io.methods.iter().any(|m| m.obfuscated_name == "c"));
    assert!(
        file_io
            .methods
            .iter()
            .any(|m| m.obfuscated_name == "b" && m.original_name == "load")
    );
}

#[test]
fn retrace_stacktrace_uses_all_mapping_parts() {
    const PART_ONE: &str = r#"core.file.FileIO -> a.a.a:
# {"fileName":"FileIO.java","id":"sourceFile"}
    92:92:core.file.FileIO reload() -> c
"#;
    const PART_TWO: &str = r#"core.file.Validatable -> a.a.b:
# {"fileName":"Validatable.java","id":"sourceFile"}
    26:26:core.file.FileIO validate() -> a_
"#;

    let input = "\
\tat a.a.a.c(SourceFile:92)
\tat a.a.b.a_(SourceFile:26)";

    let output = retrace_stacktrace(&[PART_ONE.as_bytes(), PART_TWO.as_bytes()], input).unwrap();

    assert_eq!(
        output,
        "\
\tat core.file.FileIO.reload(FileIO.java:92)
\tat core.file.Validatable.validate(Validatable.java:26)"
    );
}

#[test]
fn proguard_s3_key_uses_uploaded_file_name() {
    let project_id = ProjectId { value: 0 };
    let key = proguard_s3_key(project_id, "build-1", "base.txt");

    assert_eq!(
        key,
        "00000000-0000-0000-0000-000000000000/build-1/proguard/base.txt"
    );
}

#[test]
fn a_later_section_replaces_an_earlier_one() {
    let mapping = parse_test_mapping("x.One -> a:\n    int f -> b\nx.Two -> a:\n");
    assert_eq!(class_of(&mapping, "a").original_name, "x.Two");
    assert!(class_of(&mapping, "a").fields.get("b").is_none());
}

#[test]
fn members_outside_of_a_section_are_passed_over() {
    let mapping = parse_test_mapping("    int f -> b\n# {\"fileName\":\"F.java\"}\nnot a class\n");
    assert!(!mapping.classes.contains_key("b"));
    assert!(mapping.classes.get("not a class").is_none());
}

#[test]
fn a_line_that_is_no_class_ends_the_section() {
    let mapping = parse_test_mapping("x.One -> a:\nstray\n    int f -> b\n");
    assert_eq!(class_of(&mapping, "a").original_name, "x.One");
    assert!(class_of(&mapping, "a").fields.get("b").is_none());
}

#[test]
fn tabs_and_carriage_returns_are_taken() {
    let mapping = parse_test_mapping("x.One -> a:\r\n\tint f -> b\r\n");
    assert_eq!(
        class_of(&mapping, "a").fields.get("b"),
        Some(&"f".to_string())
    );
}

#[test]
fn file_name_comes_from_the_json_in_a_comment() {
    let line = chars("# {\"id\":\"sourceFile\",\"fileName\":\"A\\u0042.java\"}");
    assert_eq!(extract_file_name(&line), Some("AB.java".to_string()));
    assert_eq!(extract_file_name(&chars("# {\"fileName\":7}")), None);
    assert_eq!(extract_file_name(&chars("# {\"other\":\"x\"}")), None);
    assert_eq!(extract_file_name(&chars("# {broken")), None);
    assert_eq!(extract_file_name(&chars("# plain comment")), None);
}

#[test]
fn class_lines_need_an_arrow_and_a_colon() {
    let line = chars(" x.One  ->  a :");
    let (original, obfuscated) = parse_class_line(&line).unwrap();
    assert_eq!(text(original), "x.One");
    assert_eq!(text(obfuscated), "a");
    assert!(parse_class_line(&chars("x.One -> a")).is_none());
    assert!(parse_class_line(&chars("x.One:")).is_none());
}

#[test]
fn method_names_stand_before_the_parameters() {
    assert_eq!(parse_method_name(&chars("void run(int)")), Some("run".to_string()));
    assert_eq!(parse_method_name(&chars("run()")), Some("run".to_string()));
    assert_eq!(parse_method_name(&chars("int field")), None);
}

#[test]
fn methods_with_lines_need_both_numbers() {
    let method = parse_method_with_lines(&chars(" 12:+34:void run() ")).unwrap();
    assert_eq!(method.name, "run");
    assert_eq!(method.start_line, 12);
    assert_eq!(method.end_line, 34);
    assert!(parse_method_with_lines(&chars("12:void run()")).is_none());
    assert!(parse_method_with_lines(&chars("12:x:void run()")).is_none());
    assert!(parse_method_with_lines(&chars("4294967296:1:void run()")).is_none());
    assert!(parse_method_with_lines(&chars("1:2:int field")).is_none());
}

#[test]
fn container_prefix_ends_at_the_last_slash() {
    let qualified = chars("app.jar//x/y.Z");
    let (container, name) = split_container_prefix(&qualified);
    assert_eq!(text(container), "app.jar//x/");
    assert_eq!(text(name), "y.Z");
    let plain = chars("y.Z");
    let (container, name) = split_container_prefix(&plain);
    assert_eq!(text(container), "");
    assert_eq!(text(name), "y.Z");
}

#[test]
fn line_numbers_stand_behind_the_last_colon() {
    assert_eq!(parse_stacktrace_line_number(&chars("(A.java:12)")), Some(12));
    assert_eq!(parse_stacktrace_line_number(&chars("((x:y:7))")), Some(7));
    assert_eq!(parse_stacktrace_line_number(&chars("(A.java:-1)")), None);
    assert_eq!(parse_stacktrace_line_number(&chars("(Unknown Source)")), None);
    assert_eq!(parse_stacktrace_line_number(&chars("(A.java:12) ~[x]")), None);
}

#[test]
fn methods_are_told_apart_by_their_lines() {
    let mapping = parse_test_mapping(SAMPLE_MAPPING);
    let position = mapping.resolve("a.a.a", Some("a"), Some(66)).unwrap();
    assert_eq!(position.name.as_deref(), Some("getRoot"));
    assert_eq!(position.line, 66);
    assert_eq!(position.column, 0);
    let position = mapping.resolve("a.a.a", Some("a"), Some(1)).unwrap();
    assert_eq!(position.name.as_deref(), Some("setRoot"));
    let position = mapping.resolve("a.a.a", Some("zzz"), None).unwrap();
    assert_eq!(position.name, None);
    assert_eq!(position.line, 0);
    assert!(matches!(
        mapping.resolve("z.z.z", None, None),
        Err(AppError::NotFound)
    ));
}

#[test]
fn frames_without_a_class_or_parameters_stay() {
    let mapping = parse_test_mapping(SAMPLE_MAPPING);
    assert_eq!(mapping.retrace("\tat a.a.a.c"), "\tat a.a.a.c");
    assert_eq!(mapping.retrace("at main(x:1)"), "at main(x:1)");
    assert_eq!(mapping.retrace("at b.b.b.c(x:1)"), "at b.b.b.c(x:1)");
}

#[test]
fn a_frame_without_a_known_method_keeps_its_name() {
    let mapping = parse_test_mapping("x.One -> a:\n");
    assert_eq!(mapping.retrace("at a.zz(S:5)"), "at x.One.zz(Unknown Source:5)");
}

#[test]
fn an_exception_is_retraced_with_and_without_a_message() {
    let mapping = parse_test_mapping(SAMPLE_MAPPING);
    assert_eq!(mapping.retrace("  a.a.a"), "  core.file.FileIO");
    assert_eq!(mapping.retrace("a.a.a: a: b"), "core.file.FileIO: a: b");
    assert_eq!(mapping.retrace("Caused by: z: a"), "Caused by: z: a");
}

#[test]
fn newlines_stay_and_carriage_returns_go() {
    let mapping = parse_test_mapping(SAMPLE_MAPPING);
    assert_eq!(mapping.retrace(""), "");
    assert_eq!(mapping.retrace("\n"), "\n");
    assert_eq!(mapping.retrace("x\n\ny\n"), "x\n\ny\n");
    assert_eq!(mapping.retrace("x\r\ny"), "x\ny");
}

#[test]
fn unrelated_traces_stay() {
    let mapping = parse_test_mapping(SAMPLE_MAPPING);
    let trace = "java.lang.Error: x\n\tat com.unknown.Foo.bar(Foo.java:10)\n\t... 3 more\n";
    assert_eq!(mapping.retrace(trace), trace);
    assert_eq!(mapping.retrace("x\ry\nz\r"), "x\ry\nz\r");
}

#[test]
fn one_part_is_the_whole_mapping() {
    let one = parse_test_mapping(SAMPLE_MAPPING);
    let many = parse_test_mappings(&[SAMPLE_MAPPING]);
    let trace = "\tat a.a.a.c(SourceFile:92)\n\tat a.a.b.a_(SourceFile:26)";
    assert_eq!(one.retrace(trace), many.retrace(trace));
}

#[test]
fn a_mapping_can_be_split_between_sections() {
    let cut = SAMPLE_MAPPING.find("core.file.Validatable ->").unwrap();
    let (first, second) = SAMPLE_MAPPING.split_at(cut);
    let parts = parse_test_mappings(&[first, second]);
    let whole = parse_test_mapping(SAMPLE_MAPPING);
    let trace = "a.a.b: x\n\tat a.a.a.c(SourceFile:92)\n\tat a.a.b.a_(SourceFile:26)\n";
    assert_eq!(parts.retrace(trace), whole.retrace(trace));
    assert_eq!(
        class_of(&parts, "a.a.b").methods.len(),
        class_of(&whole, "a.a.b").methods.len()
    );
    let reordered = parse_test_mappings(&[second, "", first]);
    assert_eq!(reordered.retrace(trace), whole.retrace(trace));
}

#[test]
fn merged_fields_come_from_the_later_part() {
    let mapping = parse_test_mappings(&[
        "x.One -> a:\n    int first -> f\n",
        "x.Other -> a:\n# {\"fileName\":\"O.java\"}\n    int second -> f\n",
    ]);
    let class = class_of(&mapping, "a");
    assert_eq!(class.original_name, "x.One");
    assert_eq!(class.file_name.as_deref(), Some("O.java"));
    assert_eq!(class.fields.get("f"), Some(&"second".to_string()));
}

#[test]
fn names_with_newlines_come_from_file_names_alone() {
    let mapping = parse_test_mapping("x.One -> a:\n# {\"fileName\":\"A\\nB\"}\n");
    assert_eq!(mapping.retrace("at a.b(S:1)"), "at x.One.b(A\nB:1)");
    assert!(!class_of(&mapping, "a").original_name.contains('\n'));
}

#[test]
fn mapping_parts_must_be_utf8() {
    let bad: &[u8] = &[b'a', 0xff];
    let err = retrace_stacktrace(&["x.One -> a:".as_bytes(), bad], "a").unwrap_err();
    let expected = std::str::from_utf8(bad).unwrap_err().to_string();
    assert_eq!(
        err.to_text(),
        format!("bad request: invalid proguard mapping: {expected}")
    );
    assert_eq!(
        retrace_stacktrace(&["x.One -> a:".as_bytes()], "a: m").unwrap(),
        "x.One: m"
    );
    assert_eq!(
        invalid_mapping("reason").to_text(),
        "bad request: invalid proguard mapping: reason"
    );
}

#[test]
fn mapping_keys_are_under_the_prefix_of_the_build() {
    let project_id = ProjectId { value: 0xabc };
    let prefix = proguard_s3_prefix(project_id, "build-1");
    assert_eq!(prefix, "00000000-0000-0000-0000-000000000abc/build-1/proguard");
    assert!(proguard_s3_key(project_id, "build-1", "base.txt").starts_with(&prefix));
}

use sourcemap_backend::decimal::{push_decimal, read_decimal};
use sourcemap_backend::order::{comes_before, sort_texts, stable_order};
use sourcemap_backend::text::{
    contains_text, find_chars, is_whitespace, last_word_chars, rfind_chars, rsplit_once_chars,
    split_lines, split_once_chars, strip_prefix_chars, strip_suffix_chars, trim_chars,
    trim_end_char, trim_end_chars, trim_start_char, trim_start_chars,
};

const SAMPLES: [&str; 14] = [
    "",
    " ",
    "a",
    " a b ",
    "\u{3000}x\u{85}",
    "a\nb",
    "a\r\nb\r\n",
    "\n\n",
    "\r",
    "x\r",
    "a -> b -> c",
    "((a:b:c))",
    "na\u{ef}ve\u{2028}text ",
    "\taaa\u{0}aaa\t",
];

fn chars(text: &str) -> Vec<char> {
    text.chars().collect()
}

fn text(chars: &[char]) -> String {
    chars.iter().collect()
}

fn pair(parts: Option<(&[char], &[char])>) -> Option<(String, String)> {
    parts.map(|(a, b)| (text(a), text(b)))
}

fn owned(parts: Option<(&str, &str)>) -> Option<(String, String)> {
    parts.map(|(a, b)| (a.to_string(), b.to_string()))
}

#[test]
fn white_space_is_that_of_unicode() {
    for c in '\u{0}'..=char::MAX {
        assert_eq!(is_whitespace(c), c.is_whitespace());
    }
}

#[test]
fn trimming_agrees_with_strings() {
    for s in SAMPLES {
        let c = chars(s);
        assert_eq!(text(trim_chars(&c)), s.trim());
        assert_eq!(text(trim_start_chars(&c)), s.trim_start());
        assert_eq!(text(trim_end_chars(&c)), s.trim_end());
        assert_eq!(text(trim_start_char(&c, '(')), s.trim_start_matches('('));
        assert_eq!(text(trim_end_char(&c, ')')), s.trim_end_matches(')'));
    }
}

#[test]
fn splitting_agrees_with_strings() {
    for s in SAMPLES {
        let c = chars(s);
        for separator in [" -> ", ":", "\n", "aa", "a", ""] {
            assert_eq!(
                pair(split_once_chars(&c, separator)),
                owned(s.split_once(separator))
            );
            assert_eq!(
                pair(rsplit_once_chars(&c, separator)),
                owned(s.rsplit_once(separator))
            );
            assert_eq!(
                strip_prefix_chars(&c, separator).map(text),
                s.strip_prefix(separator).map(|t| t.to_string())
            );
            assert_eq!(
                strip_suffix_chars(&c, separator).map(text),
                s.strip_suffix(separator).map(|t| t.to_string())
            );
            assert_eq!(contains_text(s, separator), s.contains(separator));
        }
        assert_eq!(
            last_word_chars(&c).map(text),
            s.split_whitespace().last().map(|w| w.to_string())
        );
    }
}

#[test]
fn searching_gives_the_first_and_the_last_place() {
    let c = chars("aXbXc");
    assert_eq!(find_chars(&c, &['X']), Some(1));
    assert_eq!(rfind_chars(&c, &['X']), Some(3));
    assert_eq!(find_chars(&c, &['Y']), None);
    assert_eq!(rfind_chars(&c, &chars("too long to fit")), None);
}

#[test]
fn lines_agree_with_strings() {
    for s in SAMPLES {
        let c = chars(s);
        let ours: Vec<String> = split_lines(&c).into_iter().map(text).collect();
        let theirs: Vec<String> = s.lines().map(|l| l.to_string()).collect();
        assert_eq!(ours, theirs);
    }
}

#[test]
fn numbers_agree_with_strings() {
    for s in [
        "", "0", "7", "007", "+7", "-7", "+", "-", "4294967295", "4294967296",
        "99999999999999999999", "1 ", " 1", "1a", "\u{661}", "++1",
    ] {
        assert_eq!(read_decimal(&chars(s), u32::MAX), s.parse::<u32>().ok());
        assert_eq!(
            read_decimal(&chars(s), 65_535),
            s.parse::<u16>().ok().map(u32::from)
        );
    }
}

#[test]
fn numbers_are_read_back_as_they_are_written() {
    for n in [0, 1, 9, 10, 99, 100, 65_535, u32::MAX] {
        let mut written = String::from("n=");
        push_decimal(&mut written, n);
        assert_eq!(written, format!("n={n}"));
        assert_eq!(read_decimal(&chars(&written[2..]), u32::MAX), Some(n));
    }
}

#[test]
fn the_order_of_texts_is_that_of_strings() {
    let mut texts: Vec<String> = SAMPLES.iter().map(|s| s.to_string()).collect();
    texts.extend(["\u{ffff}", "\u{10000}", "\u{e000}", "a", "Z", "z", "ab"].map(|s| s.to_string()));
    for a in &texts {
        for b in &texts {
            assert_eq!(comes_before(a, b), a < b);
        }
    }
    let sorted = sort_texts(texts.clone());
    texts.sort_unstable();
    assert_eq!(sorted, texts);
}

#[test]
fn sorting_many_texts_agrees_with_strings() {
    let mut n: u64 = 1;
    let mut texts: Vec<String> = Vec::new();
    for _ in 0..5000 {
        n = n.wrapping_mul(6364136223846793005).wrapping_add(1442695040888963407);
        texts.push(format!("{}", n >> 52));
    }
    let sorted = sort_texts(texts.clone());
    texts.sort_unstable();
    assert_eq!(sorted, texts);
}

#[test]
fn equal_texts_keep_their_order() {
    let texts: Vec<String> = ["b", "a", "b", "a"].map(|s| s.to_string()).to_vec();
    assert_eq!(stable_order(&texts), vec![1, 3, 0, 2]);
}

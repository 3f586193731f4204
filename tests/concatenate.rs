use yamlcat::concat::{classify, concatenate, render_file, FileStart};
use yamlcat::text::{is_blank, is_separator, is_whitespace};

const REGULAR: &str = "a: 1\n";
const REGULAR_2X: &str = "a: 1\n---\nb: 2\n";
const REGULAR_START_SEP: &str = "---\na: 1\n";
const REGULAR_END_SEP: &str = "a: 1\n---\n";
const REGULAR_BOTH_SEP: &str = "---\na: 1\n---\n";
const EMPTY: &str = "";
const EMPTY_1_SEP: &str = "---\n";
const EMPTY_2_SEP: &str = "---\n---\n";

fn chars(s: &str) -> Vec<char> {
    s.chars().collect()
}

fn run(files: &[&str]) -> String {
    let files: Vec<Vec<char>> = files.iter().map(|f| chars(f)).collect();
    concatenate(&files).into_iter().collect()
}

#[test]
fn test_no_paths() {
    let out = concatenate(&Vec::new());
    assert!(out.is_empty());
}

#[test]
fn test_empty_file() {
    assert_eq!(run(&[EMPTY]), "");
}

#[test]
fn test_regular() {
    assert_eq!(run(&[REGULAR]), "---\na: 1\n");
}

#[test]
fn test_regular_2x() {
    assert_eq!(run(&[REGULAR_2X]), "---\na: 1\n---\nb: 2\n");
}

#[test]
fn test_regular_twice() {
    assert_eq!(run(&[REGULAR, REGULAR]), "---\na: 1\n---\na: 1\n");
}

#[test]
fn test_regular_and_empty() {
    assert_eq!(run(&[REGULAR, EMPTY_1_SEP]), "---\na: 1\n");
}

#[test]
fn test_empty_and_regular() {
    assert_eq!(run(&[EMPTY_1_SEP, REGULAR]), "---\na: 1\n");
}

#[test]
fn test_empty() {
    assert_eq!(run(&[EMPTY_1_SEP]), "");
}

#[test]
fn test_empty_and_empty() {
    assert_eq!(run(&[EMPTY_1_SEP, EMPTY_2_SEP]), "");
}

#[test]
fn test_regular_start_sep() {
    assert_eq!(run(&[REGULAR_START_SEP]), "---\na: 1\n");
}

#[test]
fn test_regular_end_sep() {
    assert_eq!(run(&[REGULAR_END_SEP]), "---\na: 1\n---\n");
}

#[test]
fn test_regular_both_sep() {
    assert_eq!(run(&[REGULAR_BOTH_SEP]), "---\na: 1\n---\n");
}

#[test]
fn test_regular_both_sep_and_regular() {
    assert_eq!(run(&[REGULAR_BOTH_SEP, REGULAR]), "---\na: 1\n---\n---\na: 1\n");
}

#[test]
fn test_regular_both_sep_and_start_sep() {
    assert_eq!(run(&[REGULAR_BOTH_SEP, REGULAR_START_SEP]), "---\na: 1\n---\n---\na: 1\n");
}

#[test]
fn test_regular_both_sep_and_empty_and_start_sep() {
    assert_eq!(
        run(&[REGULAR_BOTH_SEP, EMPTY_1_SEP, REGULAR_START_SEP]),
        "---\na: 1\n---\n---\na: 1\n"
    );
}

#[test]
fn test_regular_and_empty_and_regular() {
    assert_eq!(run(&[REGULAR, EMPTY_1_SEP, REGULAR]), "---\na: 1\n---\na: 1\n");
}

#[test]
fn scenario_single_document_without_separator() {
    assert_eq!(run(&["a: 1"]), "---\na: 1");
    assert_eq!(run(&["a: 1\n"]), "---\na: 1\n");
}

#[test]
fn scenario_lone_separator_gives_nothing() {
    assert_eq!(run(&["---\n"]), "");
    assert_eq!(classify(&chars("---\n")), FileStart::Empty);
}

#[test]
fn scenario_empty_file_first_is_ignored() {
    assert_eq!(run(&["", "a: 1\n"]), run(&["a: 1\n"]));
    assert_eq!(run(&["", "a: 1\n"]), "---\na: 1\n");
}

#[test]
fn scenario_two_documents_with_leading_separator() {
    let input = "---\na: 1\n---\nb: 2\n";
    assert_eq!(run(&[input]), input);
    assert_eq!(classify(&chars(input)), FileStart::Separator);
}

#[test]
fn same_file_twice_doubles_the_output() {
    let one = run(&[REGULAR_2X]);
    let two = run(&[REGULAR_2X, REGULAR_2X]);
    assert_eq!(two, format!("{}{}", one, one));
    assert_eq!(two.matches("---\n").count(), 4);
}

#[test]
fn blank_lines_and_separators_only_contribute_nothing() {
    for input in ["", "\n\n", "  \t\n \r\n", "---", "---\n", "\n  ---  \n\n", "---\n---\n\n---\n"] {
        assert_eq!(classify(&chars(input)), FileStart::Empty);
        assert!(render_file(&chars(input)).is_empty());
    }
}

#[test]
fn leading_separator_after_blank_lines_is_kept_alone() {
    let input = "\n\n  --- \r\nx: y\n";
    assert_eq!(classify(&chars(input)), FileStart::Separator);
    let out: String = render_file(&chars(input)).into_iter().collect();
    assert_eq!(out, input);
}

#[test]
fn content_first_gets_one_separator() {
    let input = "\n# comment\n---\nb: 2\n";
    assert_eq!(classify(&chars(input)), FileStart::Content);
    let out: String = render_file(&chars(input)).into_iter().collect();
    assert_eq!(out, "---\n\n# comment\n---\nb: 2\n");
}

#[test]
fn near_separators_are_content() {
    for input in ["----\n", "-- -\n", "--- a\n", "...\n"] {
        assert_eq!(classify(&chars(input)), FileStart::Content);
    }
}

#[test]
fn whitespace_is_unicode_white_space() {
    for c in [' ', '\t', '\n', '\r', '\u{0b}', '\u{0c}', '\u{85}', '\u{a0}', '\u{2003}', '\u{3000}'] {
        assert!(is_whitespace(c));
    }
    for c in ['a', '-', '\u{200b}', '\u{0}'] {
        assert!(!is_whitespace(c));
    }
    let line = chars("\u{3000}---\u{a0}\n");
    assert!(is_separator(&line, 0, line.len()));
    assert!(!is_blank(&line, 0, line.len()));
    assert!(is_blank(&line, 4, line.len()));
}

fn documents(s: &str) -> Vec<String> {
    let mut docs = Vec::new();
    let mut current: Vec<&str> = Vec::new();
    let flush = |lines: &mut Vec<&str>, docs: &mut Vec<String>| {
        while lines.last().map_or(false, |l| l.trim().is_empty()) {
            lines.pop();
        }
        if !lines.is_empty() {
            docs.push(lines.concat());
        }
        lines.clear();
    };
    for line in s.split_inclusive('\n') {
        if line.trim() == "---" {
            flush(&mut current, &mut docs);
        } else {
            current.push(line);
        }
    }
    flush(&mut current, &mut docs);
    docs
}

#[test]
fn resplitting_the_output_gives_every_document_in_order() {
    let files = [
        "\n---\nx: 1\n---\n\n---\ny: 2\n",
        "",
        "z: 3\n---\n",
        "---\n",
        "\n\n---\nw: 4\n",
        "v: 5",
    ];
    let out = run(&files);
    let expected: Vec<String> = files.iter().flat_map(|f| documents(f)).collect();
    assert_eq!(documents(&out), expected);
    assert_eq!(expected, vec!["x: 1\n", "y: 2\n", "z: 3\n", "w: 4\n", "v: 5"]);
}

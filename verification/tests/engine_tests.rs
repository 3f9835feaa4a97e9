//! Runs of the whole snapshot-test engine over in-memory fixtures.
//!
//! The driver below plays the file system's part: it answers the
//! engine's directory listings and file reads from a list of
//! `(relative path, content)` pairs, and records what the engine asks
//! to write, so a whole run can be exercised without touching a disk.

use tux::Discovery;
use tux::Entry;
use tux::TestDataResult;
use tux::aggregate;
use tux::golden_path;
use tux::judge_case;
use tux::make_item;
use tux::normalize_input;
use tux::proposed_path;

const ROOT: &str = "fixture_root";

fn list_dir(files: &[(&str, &str)], dir_rel: &str) -> Vec<Entry> {
    let mut names: Vec<(String, bool)> = Vec::new();
    for (path, _) in files {
        let rest: Option<&str> = if dir_rel.is_empty() {
            Some(*path)
        } else {
            let prefix = format!("{}/", dir_rel);
            path.strip_prefix(&prefix)
        };
        if let Some(rest) = rest {
            let (name, is_dir) = match rest.find('/') {
                Some(idx) => (&rest[..idx], true),
                None => (rest, false),
            };
            if !names.iter().any(|(n, _)| n == name) {
                names.push((name.to_string(), is_dir));
            }
        }
    }
    names
        .into_iter()
        .map(|(n, d)| Entry { name: n.into_bytes(), is_dir: d })
        .collect()
}

fn strip_root(path: &[u8]) -> String {
    let s = String::from_utf8(path.to_vec()).unwrap();
    s.strip_prefix(&format!("{}/", ROOT)).unwrap().to_string()
}

fn run_fixture<F: FnMut(Vec<String>) -> Vec<String>>(
    files: &[(&str, &str)],
    mut callback: F,
) -> (TestDataResult, Vec<(String, String)>) {
    let mut discovery = Discovery::new(ROOT.as_bytes().to_vec());
    while let Some(task) = discovery.next_dir() {
        let task_rel = String::from_utf8(task.name.clone()).unwrap();
        let entries = list_dir(files, &task_rel);
        discovery.add_listing(&task, entries);
    }
    let cases = discovery.into_cases();
    let mut items = Vec::new();
    let mut written = Vec::new();
    for case in &cases {
        let rel = String::from_utf8(case.name.clone()).unwrap();
        let content = files
            .iter()
            .find(|(p, _)| *p == rel)
            .expect("reading test input file")
            .1;
        let lines = normalize_input(&content.as_bytes().to_vec());
        let lines: Vec<String> = lines
            .into_iter()
            .map(|l| String::from_utf8(l).unwrap())
            .collect();
        let output = callback(lines);
        let output: Vec<Vec<u8>> = output.into_iter().map(|s| s.into_bytes()).collect();
        let gpath = golden_path(&case.path);
        let grel = strip_root(&gpath);
        let golden = files
            .iter()
            .find(|(p, _)| *p == grel)
            .map(|(_, c)| c.as_bytes().to_vec());
        let eval = judge_case(&output, golden);
        if let Some(proposed) = eval.proposed {
            let ppath = proposed_path(&case.path);
            written.push((strip_root(&ppath), String::from_utf8(proposed).unwrap()));
        }
        items.push(make_item(&case.name, eval.success));
    }
    (aggregate(items), written)
}

fn run_fixture_or_panic<F: FnMut(Vec<String>) -> Vec<String>>(
    files: &[(&str, &str)],
    callback: F,
) {
    let (result, _) = run_fixture(files, callback);
    if !result.success {
        panic!("tests failed");
    }
}

#[test]
fn testdata_runs_test_callback() {
    let files = [("some.input", ""), ("some.valid", "")];

    let mut test_callback_was_called = false;
    run_fixture_or_panic(&files, |input| {
        test_callback_was_called = true;
        input
    });

    assert!(test_callback_was_called);
}

#[test]
fn testdata_runs_test_callback_with_input() {
    let files = [("some.input", "the input"), ("some.valid", "")];

    let mut test_callback_input = String::new();
    run_fixture_or_panic(&files, |input| {
        let input = input.join("\n");
        test_callback_input.push_str(&input);
        Vec::new()
    });

    assert_eq!(test_callback_input, "the input");
}

#[test]
#[should_panic]
fn testdata_fails_if_output_is_missing() {
    let files = [("test.input", "some input")];

    run_fixture_or_panic(&files, |input| input);
}

#[test]
#[should_panic]
fn testdata_fails_if_output_is_different() {
    let files = [("test.input", "some input"), ("test.valid", "some output")];
    run_fixture_or_panic(&files, |input| input);
}

#[test]
fn testdata_ignores_leading_and_trailing_lines_when_comparing() {
    let files = [("test.input", "value"), ("test.valid", "  \n\nvalue\n\n  ")];
    run_fixture_or_panic(&files, |input| input);

    run_fixture_or_panic(&files, |mut input| {
        input.push("".to_string());
        input
    });
}

#[test]
fn testdata_ignores_line_break_differences_in_input_and_output() {
    let files = [
        ("a.input", "a\nb\nc"),
        ("a.valid", "c\r\nb\r\na"),
        ("b.input", "a\r\nb\r\nc"),
        ("b.valid", "c\nb\na"),
    ];

    run_fixture_or_panic(&files, |mut input| {
        input.reverse();
        input
    });
}

#[test]
#[should_panic]
fn testdata_should_not_ignore_trailing_indentation_of_first_line() {
    let files = [("test.input", "value"), ("test.valid", "  value")];
    run_fixture_or_panic(&files, |input| input);

    run_fixture_or_panic(&files, |mut input| {
        input.push("".to_string());
        input
    });
}

#[test]
fn testdata_trim_leading_empty_lines_and_trailing_space_in_the_input() {
    let files = [("a.input", "\n  \n  a\n\nb\nc  \n  \n\n"), ("a.valid", "")];

    let mut test_input = String::new();
    run_fixture_or_panic(&files, |input| {
        test_input = input.join("\n");
        Vec::new()
    });

    assert_eq!(test_input, "  a\n\nb\nc");
}

#[test]
fn testdata_runs_test_callback_for_each_input() {
    let files = [
        ("a.input", "input A"),
        ("a.valid", ""),
        ("b.input", "input B"),
        ("b.valid", ""),
        ("c.input", "input C"),
        ("c.valid", ""),
    ];

    let mut test_callback_inputs = Vec::new();
    run_fixture_or_panic(&files, |input| {
        let input = input.join("\n");
        test_callback_inputs.push(input);
        Vec::new()
    });

    let expected = vec![
        "input A".to_string(),
        "input B".to_string(),
        "input C".to_string(),
    ];
    assert_eq!(test_callback_inputs, expected);
}

#[test]
fn testdata_checks_subdirectories() {
    let files = [
        ("a1.input", "a1"),
        ("a1.valid", ""),
        ("a2.input", "a2"),
        ("a2.valid", ""),
        ("a3.input", "a3"),
        ("a3.valid", ""),
        ("a1/a.input", "a1/a"),
        ("a1/a.valid", ""),
        ("a1/b.input", "a1/b"),
        ("a1/b.valid", ""),
        ("a2/a.input", "a2/a"),
        ("a2/a.valid", ""),
        ("a2/b.input", "a2/b"),
        ("a2/b.valid", ""),
        ("a2/sub/file.input", "a2/sub/file"),
        ("a2/sub/file.valid", ""),
    ];

    let mut test_callback_inputs = Vec::new();
    run_fixture_or_panic(&files, |input| {
        let input = input.join("\n");
        test_callback_inputs.push(input);
        Vec::new()
    });

    let expected = vec![
        "a1".to_string(),
        "a2".to_string(),
        "a3".to_string(),
        "a1/a".to_string(),
        "a1/b".to_string(),
        "a2/a".to_string(),
        "a2/b".to_string(),
        "a2/sub/file".to_string(),
    ];
    assert_eq!(test_callback_inputs, expected);
}

#[test]
fn testdata_to_result_returns_ok_for_valid_case() {
    let files = [("test.input", "abc\n123"), ("test.valid", "123\nabc")];

    let (result, _) = run_fixture(&files, |mut input| {
        input.reverse();
        input
    });

    assert!(result.success);
    assert_eq!(result.tests.len(), 1);
    assert_eq!(result.tests[0].name, "test.input");
    assert_eq!(result.tests[0].success, true);
}

#[test]
fn testdata_to_result_returns_an_item_for_each_case() {
    let files = [
        ("a.input", "A"),
        ("a.valid", "a"),
        ("b.input", "B"),
        ("b.valid", "b"),
        ("sub/some.input", "Some"),
        ("sub/some.valid", "some"),
    ];

    let (result, _) = run_fixture(&files, |input| {
        input.into_iter().map(|x| x.to_lowercase()).collect()
    });

    assert_eq!(result.tests.len(), 3);
    assert_eq!(result.tests[0].name, "a.input");
    assert_eq!(result.tests[1].name, "b.input");
    assert_eq!(result.tests[2].name, "sub/some.input");
}

#[test]
fn testdata_should_fail_and_generate_an_output_file_if_one_does_not_exist() {
    let files = [("test.input", "Some Input")];

    let (result, written) = run_fixture(&files, |input| {
        input.into_iter().map(|x| x.to_lowercase()).collect()
    });
    assert_eq!(result.success, false);

    assert_eq!(written.len(), 1);
    assert_eq!(written[0].0, "test.valid.new");
    assert_eq!(written[0].1, "some input");
}

#[test]
fn testdata_to_result_should_fail_if_output_does_not_match() {
    let files = [
        ("a.input", "Valid 1"),
        ("a.valid", "valid 1"),
        ("b.input", "Valid 2"),
        ("b.valid", "valid 2"),
        ("c.input", "this should fail"),
        ("c.valid", "invalid output for the test"),
    ];

    let (result, _) = run_fixture(&files, |input| {
        input.into_iter().map(|x| x.to_lowercase()).collect()
    });

    assert!(!result.success);
    assert_eq!(result.tests.len(), 3);
    assert!(result.tests[0].success);
    assert!(result.tests[1].success);
    assert!(!result.tests[2].success);
}

#[test]
fn testdata_reverse_case_works() {
    let files = [("case.input", "a\nb\nc"), ("case.valid", "c\nb\na")];
    run_fixture_or_panic(&files, |mut input| {
        input.reverse();
        input
    });
}

#[test]
#[should_panic]
fn testdata_failed_case_fails() {
    let files = [("case.input", "some input"), ("case.valid", "something else")];
    run_fixture_or_panic(&files, |input| input);
}

#[test]
fn empty_fixture_tree_is_a_success() {
    let (result, written) = run_fixture(&[], |input| input);
    assert!(result.success);
    assert_eq!(result.tests.len(), 0);
    assert_eq!(written.len(), 0);
}

#[test]
fn discovery_order_ignores_creation_order() {
    let sorted = [
        ("a.input", "a"),
        ("a.valid", ""),
        ("b.input", "b"),
        ("b.valid", ""),
        ("a1/a.input", "a1/a"),
        ("a1/a.valid", ""),
        ("a1/b.input", "a1/b"),
        ("a1/b.valid", ""),
    ];
    let shuffled = [
        ("a1/b.input", "a1/b"),
        ("b.valid", ""),
        ("a1/a.valid", ""),
        ("a.input", "a"),
        ("b.input", "b"),
        ("a1/b.valid", ""),
        ("a.valid", ""),
        ("a1/a.input", "a1/a"),
    ];

    let expected = vec![
        "a.input".to_string(),
        "b.input".to_string(),
        "a1/a.input".to_string(),
        "a1/b.input".to_string(),
    ];

    for files in [&sorted[..], &shuffled[..]] {
        let (result, _) = run_fixture(files, |input| input);
        let names: Vec<String> = result.tests.iter().map(|t| t.name.clone()).collect();
        assert_eq!(names, expected);
    }
}

//! Path arithmetic: fixture-root containment, golden-file paths,
//! executable location, and run-output judgment.

use tux::RunError;
use tux::evaluate_run_output;
use tux::exe_path_for;
use tux::golden_path;
use tux::ping_response;
use tux::proposed_path;
use tux::resolve_in_root;
use tux::discover::has_input_extension;

fn bytes(s: &str) -> Vec<u8> {
    s.as_bytes().to_vec()
}

#[test]
fn test_data_should_not_create_outside_root_directory() {
    let resolved = resolve_in_root(&bytes("/tmp/fixture_root"), &bytes("sub/../../test_file.txt"));
    assert!(resolved.is_none());
}

#[test]
fn test_temp_should_not_create_file_outside_root_directory() {
    let resolved = resolve_in_root(&bytes("/tmp/fixture_root"), &bytes("sub/../../test_file.txt"));
    assert!(resolved.is_none());
}

#[test]
fn files_under_the_root_resolve_to_clean_paths() {
    let root = bytes("/tmp/fixture_root");
    assert_eq!(
        resolve_in_root(&root, &bytes("simple_file.txt")),
        Some(bytes("/tmp/fixture_root/simple_file.txt"))
    );
    assert_eq!(
        resolve_in_root(&root, &bytes("sub/a/../b/file.txt")),
        Some(bytes("/tmp/fixture_root/sub/b/file.txt"))
    );
    assert!(resolve_in_root(&root, &bytes("/etc/passwd")).is_none());
}

#[test]
fn golden_paths_swap_the_input_extension() {
    assert_eq!(golden_path(&bytes("root/case.input")), bytes("root/case.valid"));
    assert_eq!(
        proposed_path(&bytes("root/sub/case.input")),
        bytes("root/sub/case.valid.new")
    );
}

#[test]
fn only_the_input_extension_marks_a_case() {
    assert!(has_input_extension(&bytes("a.input")));
    assert!(has_input_extension(&bytes("some.file.input")));
    assert!(!has_input_extension(&bytes(".input")));
    assert!(!has_input_extension(&bytes("input")));
    assert!(!has_input_extension(&bytes("a.inputx")));
    assert!(!has_input_extension(&bytes("a.valid")));
}

#[test]
fn exe_path_climbs_out_of_the_deps_directory() {
    let p = exe_path_for(
        &bytes("/target/debug/deps/mytest-1a2b"),
        &bytes("tux_test_simple"),
        &bytes(""),
    );
    assert_eq!(p, bytes("/target/debug/tux_test_simple"));
}

#[test]
fn exe_path_stays_in_a_plain_directory_and_takes_the_extension() {
    let p = exe_path_for(&bytes("/target/debug/runner"), &bytes("tool"), &bytes("exe"));
    assert_eq!(p, bytes("/target/debug/tool.exe"));
}

#[test]
fn run_and_get_output_returns_stdout() {
    // What the simple helper executable prints on a clean run reaches
    // the caller unchanged.
    let printed = "tux simple output\n\nUsed as part of the testing harness. \
                   Output files passed as arguments.\n";
    let output = evaluate_run_output(true, printed.to_string(), String::new()).unwrap();
    assert!(
        output.contains("tux simple output"),
        "unexpected output: {}",
        output
    );
}

#[test]
fn testdata_can_execute_test_executable() {
    // What the testdata helper executable prints for its info mode
    // reaches the caller unchanged.
    let printed = "tux testdata helper\n";
    let output = evaluate_run_output(true, printed.to_string(), String::new()).unwrap();
    assert!(output.contains("tux testdata helper"));
}

#[test]
fn a_failing_exit_code_is_an_error() {
    let r = evaluate_run_output(false, String::new(), "exitcode".to_string());
    match r {
        Err(RunError::ExitFailure { stderr }) => assert_eq!(stderr, "exitcode"),
        _ => panic!("wrong outcome"),
    }
}

#[test]
fn error_output_alone_is_an_error() {
    let r = evaluate_run_output(true, "out".to_string(), "oops".to_string());
    match r {
        Err(RunError::ErrorOutput { stderr }) => assert_eq!(stderr, "oops"),
        _ => panic!("wrong outcome"),
    }
}

#[test]
fn ping_route_reports_method_and_path() {
    let reply = ping_response("GET", "/ping/abc");
    assert_eq!(reply, "method: GET\npath: /ping/abc");
}

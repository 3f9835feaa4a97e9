//! The normalization policy on its own: idempotence, line-ending
//! equivalence, and the blank-line handling at the edges.

use tux::data::judge_case;
use tux::text::join_lines;
use tux::text::normalize_golden;
use tux::text::normalize_input;
use tux::text::produced_output;
use tux::text::trim_bytes;
use tux::text::trim_end_bytes;

fn bytes(s: &str) -> Vec<u8> {
    s.as_bytes().to_vec()
}

fn lines(ls: &[&str]) -> Vec<Vec<u8>> {
    ls.iter().map(|l| bytes(l)).collect()
}

#[test]
fn normalize_input_drops_leading_blanks_and_trailing_space() {
    let n = normalize_input(&bytes("\n  \n  a\n\nb\nc  \n  \n\n"));
    assert_eq!(n, lines(&["  a", "", "b", "c"]));
}

#[test]
fn normalize_input_is_idempotent() {
    let samples = [
        "",
        "value",
        "\n\nvalue\n\n",
        "  \n  \n  a\n\nb\nc  \n  \n\n",
        "a\r\nb\r\nc",
        "  leading kept\ninner  \n",
    ];
    for s in samples {
        let once = normalize_input(&bytes(s));
        let again = normalize_input(&join_lines(&once));
        assert_eq!(once, again);
    }
}

#[test]
fn normalize_golden_treats_crlf_and_lf_alike() {
    assert_eq!(normalize_golden(&bytes("a\r\nb")), normalize_golden(&bytes("a\nb")));
    assert_eq!(normalize_golden(&bytes("a\r\nb\r\n")), normalize_golden(&bytes("a\nb\n")));
}

#[test]
fn blank_edges_of_golden_do_not_matter() {
    let eval = judge_case(&lines(&["value"]), Some(bytes("\n\nvalue\n\n")));
    assert!(eval.success);
    assert!(eval.proposed.is_none());
}

#[test]
fn inner_blank_lines_are_kept() {
    assert_eq!(normalize_golden(&bytes("a\n\nb")), bytes("a\n\nb"));
    assert_eq!(normalize_input(&bytes("a\n\nb")), lines(&["a", "", "b"]));
}

#[test]
fn produced_output_trims_the_joined_edges_only() {
    assert_eq!(produced_output(&lines(&["  value  "])), bytes("value"));
    assert_eq!(produced_output(&lines(&["a  ", "  b"])), bytes("a  \n  b"));
    assert_eq!(produced_output(&lines(&[])), bytes(""));
}

#[test]
fn trims_take_ascii_whitespace_from_the_edges() {
    assert_eq!(trim_end_bytes(&bytes("a \t\r\n")), bytes("a"));
    assert_eq!(trim_bytes(&bytes("\t a b \r")), bytes("a b"));
    assert_eq!(trim_bytes(&bytes("   ")), bytes(""));
}

//! Golden comparison, promotion of missing golden files, and result
//! aggregation for one run of the snapshot-test engine.

use vstd::prelude::*;

use crate::discover::SLASH;
use crate::text::bytes_equal;
use crate::text::bytes_to_string;
use crate::text::norm_golden_spec;
use crate::text::normalize_golden;
use crate::text::produced_output;
use crate::text::produced_spec;
use crate::text::utf8_lossy_of;

verus! {

/// The bytes of `".input"`, the suffix of every test input path.
pub open spec fn input_suffix() -> Seq<u8> {
    seq![46u8, 105u8, 110u8, 112u8, 117u8, 116u8]
}

/// The bytes of `".valid"`, the suffix of every golden path.
pub open spec fn golden_suffix() -> Seq<u8> {
    seq![46u8, 118u8, 97u8, 108u8, 105u8, 100u8]
}

/// The bytes of `".valid.new"`, the suffix of every proposed golden path.
pub open spec fn proposed_suffix() -> Seq<u8> {
    seq![46u8, 118u8, 97u8, 108u8, 105u8, 100u8, 46u8, 110u8, 101u8, 119u8]
}

/// A path whose final component is a file name with the input
/// extension: it ends in `".input"` with a nonempty stem before the dot.
pub open spec fn is_input_path(p: Seq<u8>) -> bool {
    p.len() >= 7 && p.skip(p.len() - 6) == input_suffix() && p[p.len() - 7] != SLASH
}

/// Discovery only yields paths the golden-path functions accept: the
/// path of a file whose name qualifies as a test input, joined under
/// any directory, ends in the input extension with a nonempty stem,
/// for file names free of separators (as names read from a directory
/// listing are).
pub proof fn lemma_case_path_is_input_path(dir: Seq<u8>, name: Seq<u8>)
    requires
        crate::discover::is_input_name(name),
        forall|i: int| 0 <= i < name.len() ==> name[i] != SLASH,
    ensures
        is_input_path(crate::discover::child_path_spec(dir, name)),
{
    crate::discover::lemma_last_dot_props(name);
    let d: int = crate::discover::last_dot(name);
    assert(name.skip(d + 1).len() == crate::discover::input_ext().len());
    assert(name.len() == d + 6);
    let p = crate::discover::child_path_spec(dir, name);
    assert(forall|k: int| 0 <= k < name.len() ==> p[dir.len() + 1 + k] == name[k]);
    assert(name.skip(d) =~= input_suffix()) by {
        assert(name[d] == crate::discover::DOT);
        assert(forall|k: int|
            0 <= k < 5 ==> name.skip(d + 1)[k] == crate::discover::input_ext()[k]);
        assert(forall|k: int| 1 <= k < 6 ==> name.skip(d)[k] == name.skip(d + 1)[k - 1]);
    }
    assert(p.skip(p.len() - 6) =~= name.skip(d));
    assert(p[p.len() - 7] == name[d - 1]);
}

/// The golden path of an input path: the extension replaced by the
/// golden extension.
pub open spec fn golden_path_spec(p: Seq<u8>) -> Seq<u8> {
    p.take(p.len() - 6) + golden_suffix()
}

/// The proposed golden path of an input path: the extension replaced by
/// the golden extension with the promotion suffix.
pub open spec fn proposed_path_spec(p: Seq<u8>) -> Seq<u8> {
    p.take(p.len() - 6) + proposed_suffix()
}

/// Copies the stem of an input path: everything up to its extension dot.
fn copy_stem(p: &Vec<u8>) -> (r: Vec<u8>)
    requires
        is_input_path(p@),
    ensures
        r@ == p@.take(p@.len() - 6),
{
    let mut r: Vec<u8> = Vec::new();
    let end: usize = p.len() - 6;
    let mut i: usize = 0;
    while i < end
        invariant
            i <= end,
            end == p@.len() - 6,
            r@ == p@.take(i as int),
        decreases end - i,
    {
        r.push(p[i]);
        proof {
            assert(p@.take(i + 1) =~= p@.take(i as int).push(p@[i as int]));
        }
        i = i + 1;
    }
    r
}

/// Builds the golden path that belongs to an input path.
pub fn golden_path(p: &Vec<u8>) -> (r: Vec<u8>)
    requires
        is_input_path(p@),
    ensures
        r@ == golden_path_spec(p@),
{
    let mut r = copy_stem(p);
    r.push(46);
    r.push(118);
    r.push(97);
    r.push(108);
    r.push(105);
    r.push(100);
    proof {
        assert(r@ =~= p@.take(p@.len() - 6) + golden_suffix());
    }
    r
}

/// Builds the proposed golden path that belongs to an input path.
pub fn proposed_path(p: &Vec<u8>) -> (r: Vec<u8>)
    requires
        is_input_path(p@),
    ensures
        r@ == proposed_path_spec(p@),
{
    let mut r = copy_stem(p);
    r.push(46);
    r.push(118);
    r.push(97);
    r.push(108);
    r.push(105);
    r.push(100);
    r.push(46);
    r.push(110);
    r.push(101);
    r.push(119);
    proof {
        assert(r@ =~= p@.take(p@.len() - 6) + proposed_suffix());
    }
    r
}

/// The outcome of judging one case: whether it succeeded, and, when its
/// golden file was missing, the exact bytes to write as the proposed
/// golden file.
pub struct CaseEval {
    pub success: bool,
    pub proposed: Option<Vec<u8>>,
}

/// Judges one case from the callback's output lines and the golden text
/// that was found next to the input, if any was.
///
/// The case succeeds exactly when a golden file is present and its
/// normalized text equals the produced output. When the golden file is
/// missing the case fails and the produced output is handed back
/// verbatim, to be written as the proposed golden file.
pub fn judge_case(output_lines: &Vec<Vec<u8>>, golden: Option<Vec<u8>>) -> (r: CaseEval)
    ensures
        r.success == (golden matches Some(g) && norm_golden_spec(g@) == produced_spec(
            output_lines.deep_view(),
        )),
        golden is Some ==> r.proposed is None,
        golden is None ==> (r.proposed matches Some(p) && p@ == produced_spec(
            output_lines.deep_view(),
        )),
{
    let produced = produced_output(output_lines);
    match golden {
        Some(g) => {
            let expected = normalize_golden(&g);
            let success = bytes_equal(&expected, &produced);
            CaseEval { success, proposed: None }
        },
        None => CaseEval { success: false, proposed: Some(produced) },
    }
}

/// The outcome of one case: its relative name and whether it succeeded.
pub struct TestDataResultItem {
    pub success: bool,
    pub name: String,
}

/// The outcome of a whole run: one item per case, in discovery order,
/// and an overall flag that is the conjunction of the cases' outcomes.
pub struct TestDataResult {
    pub success: bool,
    pub tests: Vec<TestDataResultItem>,
}

/// Builds the result item of one case from its relative name and outcome.
pub fn make_item(name: &Vec<u8>, success: bool) -> (r: TestDataResultItem)
    ensures
        r.success == success,
        r.name@ == utf8_lossy_of(name@),
{
    TestDataResultItem { success, name: bytes_to_string(name) }
}

/// Aggregates per-case items into the result of a run: the overall flag
/// holds exactly when every case succeeded, so it is true for a run
/// without cases.
pub fn aggregate(items: Vec<TestDataResultItem>) -> (r: TestDataResult)
    ensures
        r.tests@ == items@,
        r.success == (forall|i: int| 0 <= i < items@.len() ==> (#[trigger] items@[i]).success),
{
    let mut ok = true;
    let mut i: usize = 0;
    while i < items.len()
        invariant
            i <= items@.len(),
            ok == (forall|k: int| 0 <= k < i ==> (#[trigger] items@[k]).success),
        decreases items@.len() - i,
    {
        if !items[i].success {
            ok = false;
        }
        proof {
            if ok {
                assert(forall|k: int| 0 <= k < i + 1 ==> (#[trigger] items@[k]).success) by {
                    assert(items@[i as int].success);
                }
            }
        }
        i = i + 1;
    }
    TestDataResult { success: ok, tests: items }
}

} // verus!
//! Data-driven snapshot-test engine with deterministic case discovery,
//! whitespace- and line-ending-tolerant golden comparison, and a
//! review-and-promote workflow for missing golden files, together with a
//! small line-oriented HTTP script interpreter.

use vstd::prelude::*;

pub use data::CaseEval;
pub use data::TestDataResult;
pub use data::TestDataResultItem;
pub use data::aggregate;
pub use data::golden_path;
pub use data::judge_case;
pub use data::make_item;
pub use data::proposed_path;
pub use discover::DirTask;
pub use discover::Discovery;
pub use discover::Entry;
pub use discover::TestCase;
pub use exe::RunError;
pub use exe::evaluate_run_output;
pub use exe::exe_path_for;
pub use paths::resolve_in_root;
pub use script::ScriptCommand;
pub use script::ScriptError;
pub use script::parse_script;
pub use script::run_script_to_string;
pub use server::ping_response;
pub use text::normalize_input;
pub use web::Request;
pub use web::RequestError;
pub use web::RequestMethod;
pub use web::RequestResult;
pub use web::Response;

pub mod data;
pub mod discover;
pub mod exe;
pub mod paths;
pub mod script;
pub mod server;
pub mod text;
pub mod web;

verus! {

/// Extension that marks a file as a test input.
pub const TEST_INPUT_FILE_EXTENSION: &'static str = "input";

/// Extension of the golden (expected output) file next to each input.
pub const TEST_OUTPUT_FILE_EXTENSION: &'static str = "valid";

/// Extension of the proposed golden file written when none exists yet.
pub const TEST_NEW_OUTPUT_FILE_EXTENSION: &'static str = "valid.new";

} // verus!

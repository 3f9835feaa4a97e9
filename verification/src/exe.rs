//! Locating sibling-built executables and judging their output.
//!
//! Integration tests run from a build output directory; the executable
//! under test lives next to the test binary (one directory up when the
//! test binary sits in a dependency subdirectory). The path arithmetic
//! is done here on plain bytes; running the process and capturing its
//! output is the caller's part, and the captured output is judged by
//! `evaluate_run_output`: any error output or failing exit status
//! makes the run fail loudly.

use vstd::prelude::*;

use crate::discover::DOT;
use crate::discover::SLASH;
use crate::discover::last_dot;

verus! {

/// Index of the last separator in `p`, or `-1` when there is none.
pub open spec fn last_slash(p: Seq<u8>) -> int
    decreases p.len(),
{
    if p.len() == 0 {
        -1
    } else if p.last() == SLASH {
        p.len() - 1
    } else {
        last_slash(p.drop_last())
    }
}

/// `last_slash` finds a separator exactly where one last stands.
proof fn lemma_last_slash_at(p: Seq<u8>, m: int)
    requires
        -1 <= m < p.len(),
        m >= 0 ==> p[m] == SLASH,
        forall|k: int| m < k < p.len() ==> p[k] != SLASH,
    ensures
        last_slash(p) == m,
    decreases p.len(),
{
    if p.len() > 0 && p.last() != SLASH {
        let t = p.drop_last();
        assert(forall|k: int| 0 <= k < t.len() ==> t[k] == p[k]);
        lemma_last_slash_at(t, m);
    }
}

/// The directory of a path: everything before its last separator, a
/// lone separator when that separator leads the path, and empty when
/// the path has none.
pub open spec fn parent_spec(p: Seq<u8>) -> Seq<u8> {
    let i: int = last_slash(p);
    if i < 0 {
        Seq::empty()
    } else if i == 0 {
        seq![SLASH]
    } else {
        p.take(i)
    }
}

/// The last component of a path: everything after its last separator.
pub open spec fn last_component(p: Seq<u8>) -> Seq<u8> {
    p.skip(last_slash(p) + 1)
}

/// The bytes of `"deps"`, the build directory that holds test binaries.
pub open spec fn deps_name() -> Seq<u8> {
    seq![100u8, 101u8, 112u8, 115u8]
}

/// The path with the extension of its last component replaced: the
/// component's last dot and what follows are dropped (a dot that leads
/// the component starts no extension), and a nonempty new extension is
/// appended after a dot.
pub open spec fn with_extension_spec(p: Seq<u8>, ext: Seq<u8>) -> Seq<u8> {
    let ls: int = last_slash(p);
    let d: int = last_dot(p);
    let stem_end: int = if d > ls + 1 {
        d
    } else {
        p.len() as int
    };
    if ext.len() == 0 {
        p.take(stem_end)
    } else {
        p.take(stem_end) + seq![DOT] + ext
    }
}

/// The path of a sibling-built executable, from the running test
/// binary's own path: the binary's directory, one level further up when
/// that directory is the dependency subdirectory, then the executable's
/// name with the platform's executable extension.
pub open spec fn exe_path_spec(current_exe: Seq<u8>, cmd: Seq<u8>, ext: Seq<u8>) -> Seq<u8> {
    let dir0 = parent_spec(current_exe);
    let dir = if last_component(dir0) == deps_name() {
        parent_spec(dir0)
    } else {
        dir0
    };
    with_extension_spec(dir + seq![SLASH] + cmd, ext)
}

/// Finds the index one past the last separator, scanning from the end.
fn find_after_last_slash(p: &Vec<u8>) -> (r: usize)
    ensures
        r == last_slash(p@) + 1,
        r <= p@.len(),
{
    let mut i: usize = p.len();
    while i > 0 && p[i - 1] != SLASH
        invariant
            i <= p@.len(),
            forall|k: int| i <= k < p@.len() ==> p@[k] != SLASH,
        decreases i,
    {
        i = i - 1;
    }
    proof {
        if i == 0 {
            lemma_last_slash_at(p@, -1);
        } else {
            lemma_last_slash_at(p@, i - 1);
        }
    }
    i
}

/// The directory of a path, as dropping a path's last component does.
pub fn parent_dir(p: &Vec<u8>) -> (r: Vec<u8>)
    ensures
        r@ == parent_spec(p@),
{
    let after: usize = find_after_last_slash(p);
    if after == 0 {
        Vec::new()
    } else if after == 1 {
        let mut r: Vec<u8> = Vec::new();
        r.push(SLASH);
        proof {
            assert(r@ =~= seq![SLASH]);
        }
        r
    } else {
        let r = crate::text::copy_range(p, 0, after - 1);
        proof {
            assert(p@.subrange(0, after - 1) =~= p@.take(last_slash(p@)));
        }
        r
    }
}

/// Decides whether the last component of a path is the dependency
/// subdirectory name.
pub fn ends_in_deps(p: &Vec<u8>) -> (r: bool)
    ensures
        r == (last_component(p@) == deps_name()),
{
    let after: usize = find_after_last_slash(p);
    let n: usize = p.len() - after;
    if n != 4 {
        proof {
            assert(last_component(p@).len() == n);
            assert(deps_name().len() == 4);
        }
        return false;
    }
    let r = p[after] == 100 && p[after + 1] == 101 && p[after + 2] == 112 && p[after + 3] == 115;
    proof {
        let lc = last_component(p@);
        assert(forall|m: int| 0 <= m < 4 ==> lc[m] == p@[after + m]);
        if r {
            assert(lc =~= deps_name());
        } else {
            assert(lc != deps_name()) by {
                if lc == deps_name() {
                    assert(lc[0] == 100 && lc[1] == 101 && lc[2] == 112 && lc[3] == 115);
                }
            }
        }
    }
    r
}

/// Replaces the extension of a path's last component.
pub fn with_extension(p: &Vec<u8>, ext: &Vec<u8>) -> (r: Vec<u8>)
    ensures
        r@ == with_extension_spec(p@, ext@),
{
    let after: usize = find_after_last_slash(p);
    let mut d: usize = p.len();
    while d > after && p[d - 1] != DOT
        invariant
            after <= d <= p@.len(),
            forall|k: int| d <= k < p@.len() ==> p@[k] != DOT,
        decreases d,
    {
        d = d - 1;
    }
    let stem_end: usize = if d > after && d - after > 1 {
        proof {
            crate::discover::lemma_last_dot_at(p@, d - 1);
        }
        d - 1
    } else {
        proof {
            if d > after {
                crate::discover::lemma_last_dot_at(p@, d - 1);
            } else {
                crate::discover::lemma_last_dot_below(p@, after as int);
            }
        }
        p.len()
    };
    let mut r = crate::text::copy_range(p, 0, stem_end);
    proof {
        assert(p@.subrange(0, stem_end as int) =~= p@.take(stem_end as int));
    }
    if ext.len() > 0 {
        r.push(DOT);
        crate::discover::append_bytes(&mut r, ext);
        proof {
            assert(r@ =~= p@.take(stem_end as int) + seq![DOT] + ext@);
        }
    }
    r
}

/// Builds the path of a sibling-built executable from the running
/// binary's path, the executable's name, and the platform's executable
/// extension.
pub fn exe_path_for(current_exe: &Vec<u8>, cmd: &Vec<u8>, ext: &Vec<u8>) -> (r: Vec<u8>)
    ensures
        r@ == exe_path_spec(current_exe@, cmd@, ext@),
{
    let dir0 = parent_dir(current_exe);
    let dir = if ends_in_deps(&dir0) {
        parent_dir(&dir0)
    } else {
        dir0
    };
    let mut joined = dir;
    joined.push(SLASH);
    crate::discover::append_bytes(&mut joined, cmd);
    proof {
        let d = if last_component(parent_spec(current_exe@)) == deps_name() {
            parent_spec(parent_spec(current_exe@))
        } else {
            parent_spec(current_exe@)
        };
        assert(joined@ =~= d + seq![SLASH] + cmd@);
    }
    with_extension(&joined, ext)
}

/// Why a run of an executable is judged failed: it exited with an
/// error status, or it wrote to its error stream.
#[derive(Debug)]
pub enum RunError {
    ExitFailure { stderr: String },
    ErrorOutput { stderr: String },
}

/// Judges a finished run of an executable: a failing exit status is an
/// error that carries the error output; a successful status with
/// nonempty error output is an error too; otherwise the standard
/// output is the run's result.
pub fn evaluate_run_output(status_success: bool, stdout: String, stderr: String) -> (r: Result<
    String,
    RunError,
>)
    ensures
        !status_success ==> (r matches Err(RunError::ExitFailure { stderr: e }) && e@ == stderr@),
        status_success && stderr@.len() > 0 ==> (r matches Err(
            RunError::ErrorOutput { stderr: e },
        ) && e@ == stderr@),
        status_success && stderr@.len() == 0 ==> (r matches Ok(s) && s@ == stdout@),
{
    if !status_success {
        Err(RunError::ExitFailure { stderr })
    } else if !stderr.as_str().is_empty() {
        Err(RunError::ErrorOutput { stderr })
    } else {
        Ok(stdout)
    }
}

} // verus!
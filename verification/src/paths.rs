//! Containment checking for files created under a fixture root.
//!
//! A relative file name handed in by a test is joined onto the root,
//! cleaned lexically (resolving `.` and `..` without touching the file
//! system), and accepted only when the cleaned path still lies under
//! the root, compared component by component.

use vstd::prelude::*;

use crate::discover::SLASH;
use crate::discover::append_bytes;
use crate::text::bytes_equal;

verus! {

/// What `path_clean::clean` returns for a path: its lexically cleaned
/// form, a function of the path alone.
pub uninterp spec fn cleaned_of(p: Seq<u8>) -> Seq<u8>;

/// Relies on `path_clean::clean`: lexical cleanup of `.` and `..`
/// segments and repeated separators, a function of the path alone.
#[verifier::external_body]
fn clean_path(p: &Vec<u8>) -> (r: Vec<u8>)
    ensures
        r@ == cleaned_of(p@),
{
    let s = String::from_utf8_lossy(p).into_owned();
    let cleaned = path_clean::clean(&s);
    cleaned.to_string_lossy().into_owned().into_bytes()
}

/// Index of the first separator in `p`, or `-1` when there is none.
pub open spec fn first_slash(p: Seq<u8>) -> int
    decreases p.len(),
{
    if p.len() == 0 {
        -1
    } else if p.first() == SLASH {
        0
    } else {
        let r: int = first_slash(p.drop_first());
        if r < 0 {
            -1
        } else {
            r + 1
        }
    }
}

/// The components of a path: its nonempty segments between separators.
pub open spec fn path_components(p: Seq<u8>) -> Seq<Seq<u8>>
    decreases p.len(),
{
    if p.len() == 0 {
        Seq::empty()
    } else {
        let i: int = first_slash(p);
        if 0 <= i < p.len() {
            let head = p.take(i);
            let rest = path_components(p.skip(i + 1));
            if head.len() == 0 {
                rest
            } else {
                seq![head] + rest
            }
        } else {
            seq![p]
        }
    }
}

/// Whether a path is absolute: it begins with a separator.
pub open spec fn path_is_absolute(p: Seq<u8>) -> bool {
    p.len() > 0 && p[0] == SLASH
}

/// A path lies under another when both are absolute or both relative
/// and the components of the second lead the components of the first.
pub open spec fn path_starts_with(p: Seq<u8>, r: Seq<u8>) -> bool {
    path_is_absolute(p) == path_is_absolute(r) && path_components(r).is_prefix_of(
        path_components(p),
    )
}

/// `first_slash` finds a separator exactly where one first stands.
proof fn lemma_first_slash_at(p: Seq<u8>, m: int)
    requires
        0 <= m <= p.len(),
        forall|k: int| 0 <= k < m ==> p[k] != SLASH,
        m < p.len() ==> p[m] == SLASH,
    ensures
        m == p.len() ==> first_slash(p) == -1,
        m < p.len() ==> first_slash(p) == m,
    decreases m,
{
    if m == 0 {
        if p.len() > 0 {
            assert(p.first() == p[0]);
        }
    } else {
        assert(p.first() == p[0]);
        let t = p.drop_first();
        assert(forall|k: int| 0 <= k < t.len() ==> t[k] == p[k + 1]);
        lemma_first_slash_at(t, m - 1);
    }
}

/// Splits a path into its nonempty components.
fn split_components(p: &Vec<u8>) -> (r: Vec<Vec<u8>>)
    ensures
        r.deep_view() == path_components(p@),
{
    let mut r: Vec<Vec<u8>> = Vec::new();
    let mut start: usize = 0;
    let mut j: usize = 0;
    proof {
        assert(p@.skip(0) =~= p@);
        assert(r.deep_view() + path_components(p@) =~= path_components(p@));
    }
    while j < p.len()
        invariant
            start <= j <= p@.len(),
            forall|k: int| start <= k < j ==> p@[k] != SLASH,
            r.deep_view() + path_components(p@.skip(start as int)) == path_components(p@),
        decreases p@.len() - j,
    {
        if p[j] == SLASH {
            proof {
                let tail = p@.skip(start as int);
                assert(forall|k: int| 0 <= k < tail.len() ==> tail[k] == p@[k + start]);
                lemma_first_slash_at(tail, j - start);
                assert(tail.take(j - start) =~= p@.subrange(start as int, j as int));
                assert(tail.skip(j - start + 1) =~= p@.skip(j + 1));
            }
            if j > start {
                let seg = crate::text::copy_range(p, start, j);
                let ghost old_deep = r.deep_view();
                r.push(seg);
                proof {
                    assert(r.deep_view() =~~= old_deep.push(seg@));
                    assert(old_deep.push(seg@) =~= old_deep + seq![seg@]);
                }
            }
            start = j + 1;
        }
        j = j + 1;
    }
    if start < p.len() {
        let seg = crate::text::copy_range(p, start, p.len());
        proof {
            let tail = p@.skip(start as int);
            assert(forall|k: int| 0 <= k < tail.len() ==> tail[k] == p@[k + start]);
            lemma_first_slash_at(tail, p@.len() - start);
            assert(tail =~= p@.subrange(start as int, p@.len() as int));
            assert(path_components(tail) == seq![tail]);
        }
        let ghost old_deep = r.deep_view();
        r.push(seg);
        proof {
            assert(r.deep_view() =~~= old_deep.push(seg@));
            assert(old_deep.push(seg@) =~= old_deep + seq![seg@]);
        }
    } else {
        proof {
            assert(p@.skip(start as int) =~= Seq::<u8>::empty());
            assert(r.deep_view() + Seq::<Seq<u8>>::empty() =~= r.deep_view());
        }
    }
    r
}

/// Decides whether `p` lies under `root`, component by component.
pub fn path_within(p: &Vec<u8>, root: &Vec<u8>) -> (r: bool)
    ensures
        r == path_starts_with(p@, root@),
{
    let p_abs = p.len() > 0 && p[0] == SLASH;
    let r_abs = root.len() > 0 && root[0] == SLASH;
    if p_abs != r_abs {
        return false;
    }
    let pc = split_components(p);
    let rc = split_components(root);
    if rc.len() > pc.len() {
        return false;
    }
    let mut i: usize = 0;
    while i < rc.len()
        invariant
            i <= rc@.len() <= pc@.len(),
            rc.deep_view() == path_components(root@),
            pc.deep_view() == path_components(p@),
            forall|k: int| 0 <= k < i ==> rc.deep_view()[k] == pc.deep_view()[k],
        decreases rc@.len() - i,
    {
        if !bytes_equal(&rc[i], &pc[i]) {
            proof {
                assert(rc.deep_view()[i as int] =~= rc@[i as int]@);
                assert(pc.deep_view()[i as int] =~= pc@[i as int]@);
            }
            return false;
        }
        proof {
            assert(rc.deep_view()[i as int] =~= rc@[i as int]@);
            assert(pc.deep_view()[i as int] =~= pc@[i as int]@);
        }
        i = i + 1;
    }
    proof {
        let rv = path_components(root@);
        let pv = path_components(p@);
        assert(rv =~= pv.subrange(0, rv.len() as int));
    }
    true
}

/// The path a relative file name resolves to before cleaning: the name
/// joined onto the root, an absolute name standing alone, as pushing a
/// path component does.
pub open spec fn joined_path_spec(root: Seq<u8>, name: Seq<u8>) -> Seq<u8> {
    if name.len() > 0 && name[0] == SLASH {
        name
    } else {
        root + seq![SLASH] + name
    }
}

/// Resolves a relative file name against a fixture root: the joined
/// path is cleaned lexically, and accepted exactly when it still lies
/// under the root. A name that escapes the root (through `..` segments
/// or an absolute path) is rejected.
pub fn resolve_in_root(root: &Vec<u8>, name: &Vec<u8>) -> (r: Option<Vec<u8>>)
    ensures
        path_starts_with(cleaned_of(joined_path_spec(root@, name@)), root@) ==> (r matches Some(p)
            && p@ == cleaned_of(joined_path_spec(root@, name@))),
        !path_starts_with(cleaned_of(joined_path_spec(root@, name@)), root@) ==> r is None,
{
    let mut joined: Vec<u8> = Vec::new();
    if name.len() > 0 && name[0] == SLASH {
        append_bytes(&mut joined, name);
        proof {
            assert(joined@ =~= name@);
        }
    } else {
        append_bytes(&mut joined, root);
        joined.push(SLASH);
        append_bytes(&mut joined, name);
        proof {
            assert(joined@ =~= root@ + seq![SLASH] + name@);
        }
    }
    let cleaned = clean_path(&joined);
    if path_within(&cleaned, root) {
        Some(cleaned)
    } else {
        None
    }
}

} // verus!
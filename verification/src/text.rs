//! Normalization policy for test input, golden, and produced text.
//!
//! Raw file bytes are split on line boundaries (bare `\n` or `\r\n`),
//! leading all-whitespace lines are dropped, and trailing whitespace is
//! trimmed, so comparisons are robust against incidental whitespace and
//! line-ending differences.

use vstd::prelude::*;

verus! {

/// Line feed byte.
pub const NL: u8 = 10;

/// Carriage return byte.
pub const CR: u8 = 13;

/// ASCII whitespace bytes: tab, line feed, vertical tab, form feed,
/// carriage return, and space.
pub open spec fn is_wsp(b: u8) -> bool {
    b == 9 || b == 10 || b == 11 || b == 12 || b == 13 || b == 32
}

/// Executable test for a whitespace byte.
pub fn byte_is_wsp(b: u8) -> (r: bool)
    ensures
        r == is_wsp(b),
{
    b == 9 || b == 10 || b == 11 || b == 12 || b == 13 || b == 32
}

/// A line is blank when every byte of it is whitespace; the empty line is blank.
pub open spec fn is_blank(l: Seq<u8>) -> bool {
    forall|i: int| 0 <= i < l.len() ==> is_wsp(l[i])
}

/// Executable test for a blank line.
pub fn line_is_blank(l: &Vec<u8>) -> (r: bool)
    ensures
        r == is_blank(l@),
{
    let mut i: usize = 0;
    while i < l.len()
        invariant
            i <= l@.len(),
            forall|k: int| 0 <= k < i ==> is_wsp(l@[k]),
        decreases l@.len() - i,
    {
        if !byte_is_wsp(l[i]) {
            return false;
        }
        i = i + 1;
    }
    true
}

/// The sequence without its trailing whitespace bytes.
pub open spec fn trim_end_spec(s: Seq<u8>) -> Seq<u8>
    decreases s.len(),
{
    if s.len() > 0 && is_wsp(s.last()) {
        trim_end_spec(s.drop_last())
    } else {
        s
    }
}

/// The sequence without its leading whitespace bytes.
pub open spec fn trim_start_spec(s: Seq<u8>) -> Seq<u8>
    decreases s.len(),
{
    if s.len() > 0 && is_wsp(s.first()) {
        trim_start_spec(s.drop_first())
    } else {
        s
    }
}

/// The sequence without leading and trailing whitespace bytes.
pub open spec fn trim_spec(s: Seq<u8>) -> Seq<u8> {
    trim_start_spec(trim_end_spec(s))
}

/// Copies `s[from..to]` into a fresh vector.
pub(crate) fn copy_range(s: &Vec<u8>, from: usize, to: usize) -> (r: Vec<u8>)
    requires
        from <= to <= s@.len(),
    ensures
        r@ == s@.subrange(from as int, to as int),
{
    let mut r: Vec<u8> = Vec::new();
    let mut i: usize = from;
    while i < to
        invariant
            from <= i <= to <= s@.len(),
            r@ == s@.subrange(from as int, i as int),
        decreases to - i,
    {
        r.push(s[i]);
        proof {
            assert(s@.subrange(from as int, i + 1) =~= s@.subrange(from as int, i as int).push(
                s@[i as int],
            ));
        }
        i = i + 1;
    }
    r
}

/// Removes trailing whitespace bytes, as trimming the end of a string does.
pub fn trim_end_bytes(s: &Vec<u8>) -> (r: Vec<u8>)
    ensures
        r@ == trim_end_spec(s@),
{
    let mut end: usize = s.len();
    proof {
        assert(s@.take(s@.len() as int) =~= s@);
    }
    while end > 0 && byte_is_wsp(s[end - 1])
        invariant
            end <= s@.len(),
            trim_end_spec(s@) == trim_end_spec(s@.take(end as int)),
        decreases end,
    {
        proof {
            let t = s@.take(end as int);
            assert(t.last() == s@[end - 1]);
            assert(t.drop_last() =~= s@.take(end - 1));
        }
        end = end - 1;
    }
    proof {
        let t = s@.take(end as int);
        assert(trim_end_spec(t) == t) by {
            if t.len() > 0 {
                assert(t.last() == s@[end - 1]);
            }
        }
        assert(s@.take(end as int) =~= s@.subrange(0, end as int));
    }
    copy_range(s, 0, end)
}

/// Removes leading and trailing whitespace bytes, as trimming both ends
/// of a string does.
pub fn trim_bytes(s: &Vec<u8>) -> (r: Vec<u8>)
    ensures
        r@ == trim_spec(s@),
{
    let mut end: usize = s.len();
    proof {
        assert(s@.take(s@.len() as int) =~= s@);
    }
    while end > 0 && byte_is_wsp(s[end - 1])
        invariant
            end <= s@.len(),
            trim_end_spec(s@) == trim_end_spec(s@.take(end as int)),
        decreases end,
    {
        proof {
            let t = s@.take(end as int);
            assert(t.last() == s@[end - 1]);
            assert(t.drop_last() =~= s@.take(end - 1));
        }
        end = end - 1;
    }
    proof {
        let t = s@.take(end as int);
        assert(trim_end_spec(t) == t) by {
            if t.len() > 0 {
                assert(t.last() == s@[end - 1]);
            }
        }
    }
    let ghost te = trim_end_spec(s@);
    let mut start: usize = 0;
    while start < end && byte_is_wsp(s[start])
        invariant
            start <= end <= s@.len(),
            te == s@.take(end as int),
            trim_start_spec(te) == trim_start_spec(s@.subrange(start as int, end as int)),
        decreases end - start,
    {
        proof {
            let t = s@.subrange(start as int, end as int);
            assert(t.first() == s@[start as int]);
            assert(t.drop_first() =~= s@.subrange(start + 1, end as int));
        }
        start = start + 1;
    }
    proof {
        let t = s@.subrange(start as int, end as int);
        assert(trim_start_spec(t) == t) by {
            if t.len() > 0 {
                assert(t.first() == s@[start as int]);
            }
        }
    }
    copy_range(s, start, end)
}

/// Index of the first line feed in `s`, or `-1` when there is none.
pub open spec fn first_nl(s: Seq<u8>) -> int
    decreases s.len(),
{
    if s.len() == 0 {
        -1
    } else if s.first() == NL {
        0
    } else {
        let r: int = first_nl(s.drop_first());
        if r < 0 {
            -1
        } else {
            r + 1
        }
    }
}

/// The line without one trailing carriage return, if it carries one.
pub open spec fn chop_cr(l: Seq<u8>) -> Seq<u8> {
    if l.len() > 0 && l.last() == CR {
        l.drop_last()
    } else {
        l
    }
}

/// The lines of `s`: segments between line feeds, each segment before a
/// line feed losing one trailing carriage return, and a final empty
/// segment (after a terminating line feed) producing no line.
pub open spec fn split_lines(s: Seq<u8>) -> Seq<Seq<u8>>
    decreases s.len(),
{
    if s.len() == 0 {
        Seq::empty()
    } else {
        let i: int = first_nl(s);
        if 0 <= i < s.len() {
            seq![chop_cr(s.take(i))] + split_lines(s.skip(i + 1))
        } else {
            seq![s]
        }
    }
}

/// `first_nl` finds a line feed exactly where one first stands.
pub proof fn lemma_first_nl(s: Seq<u8>)
    ensures
        first_nl(s) < 0 ==> forall|k: int| 0 <= k < s.len() ==> s[k] != NL,
        first_nl(s) >= 0 ==> 0 <= first_nl(s) < s.len() && s[first_nl(s)] == NL,
        first_nl(s) >= 0 ==> forall|k: int| 0 <= k < first_nl(s) ==> s[k] != NL,
    decreases s.len(),
{
    if s.len() > 0 && s.first() != NL {
        let t = s.drop_first();
        lemma_first_nl(t);
        assert(s[0] == s.first());
        assert(forall|k: int| 1 <= k < s.len() ==> s[k] == t[k - 1]);
        if first_nl(t) < 0 {
            assert forall|k: int| 0 <= k < s.len() implies s[k] != NL by {
                if k >= 1 {
                    assert(t[k - 1] != NL);
                }
            }
        } else {
            assert(first_nl(s) == first_nl(t) + 1);
            assert(s[first_nl(s)] == t[first_nl(t)]);
            assert forall|k: int| 0 <= k < first_nl(s) implies s[k] != NL by {
                if k >= 1 {
                    assert(t[k - 1] != NL);
                }
            }
        }
    }
}

/// If no line feed stands before position `m`, and one stands at `m`
/// unless `m` is the length, then `first_nl` is `m`, or `-1` at the length.
pub proof fn lemma_first_nl_at(s: Seq<u8>, m: int)
    requires
        0 <= m <= s.len(),
        forall|k: int| 0 <= k < m ==> s[k] != NL,
        m < s.len() ==> s[m] == NL,
    ensures
        m == s.len() ==> first_nl(s) == -1,
        m < s.len() ==> first_nl(s) == m,
    decreases m,
{
    if m == 0 {
        if s.len() > 0 {
            assert(s.first() == s[0]);
        }
    } else {
        assert(s.first() == s[0]);
        let t = s.drop_first();
        assert(forall|k: int| 0 <= k < t.len() ==> t[k] == s[k + 1]);
        lemma_first_nl_at(t, m - 1);
    }
}

/// Splits `s` into its lines.
pub fn split_into_lines(s: &Vec<u8>) -> (r: Vec<Vec<u8>>)
    ensures
        r.deep_view() == split_lines(s@),
{
    let mut r: Vec<Vec<u8>> = Vec::new();
    let mut start: usize = 0;
    let mut j: usize = 0;
    proof {
        assert(s@.skip(0) =~= s@);
        assert(r.deep_view() + split_lines(s@) =~= split_lines(s@));
    }
    while j < s.len()
        invariant
            start <= j <= s@.len(),
            forall|k: int| start <= k < j ==> s@[k] != NL,
            r.deep_view() + split_lines(s@.skip(start as int)) == split_lines(s@),
        decreases s@.len() - j,
    {
        if s[j] == NL {
            let mut line = copy_range(s, start, j);
            if line.len() > 0 && line[line.len() - 1] == CR {
                line.pop();
                proof {
                    assert(line@ =~= chop_cr(s@.subrange(start as int, j as int)));
                }
            }
            proof {
                let tail = s@.skip(start as int);
                assert(forall|k: int| 0 <= k < tail.len() ==> tail[k] == s@[k + start]);
                lemma_first_nl_at(tail, j - start);
                assert(tail.take(j - start) =~= s@.subrange(start as int, j as int));
                assert(tail.skip(j - start + 1) =~= s@.skip(j + 1));
                assert(split_lines(tail) == seq![chop_cr(s@.subrange(start as int, j as int))]
                    + split_lines(s@.skip(j + 1)));
                assert(line@ == chop_cr(s@.subrange(start as int, j as int)));
            }
            let ghost old_deep = r.deep_view();
            r.push(line);
            proof {
                assert(r.deep_view() =~~= old_deep.push(line@));
                assert(old_deep.push(line@) =~= old_deep + seq![line@]);
            }
            start = j + 1;
        }
        j = j + 1;
    }
    if start < s.len() {
        let line = copy_range(s, start, s.len());
        proof {
            let tail = s@.skip(start as int);
            assert(forall|k: int| 0 <= k < tail.len() ==> tail[k] == s@[k + start]);
            lemma_first_nl_at(tail, s@.len() - start);
            assert(tail =~= s@.subrange(start as int, s@.len() as int));
            assert(split_lines(tail) == seq![tail]);
        }
        let ghost old_deep = r.deep_view();
        r.push(line);
        proof {
            assert(r.deep_view() =~~= old_deep.push(line@));
            assert(old_deep.push(line@) =~= old_deep + seq![line@]);
        }
    } else {
        proof {
            assert(s@.skip(start as int) =~= Seq::<u8>::empty());
            assert(r.deep_view() + Seq::<Seq<u8>>::empty() =~= r.deep_view());
        }
    }
    r
}

/// The line sequence without its leading blank lines.
pub open spec fn drop_leading_blanks(ls: Seq<Seq<u8>>) -> Seq<Seq<u8>>
    decreases ls.len(),
{
    if ls.len() > 0 && is_blank(ls.first()) {
        drop_leading_blanks(ls.drop_first())
    } else {
        ls
    }
}

/// Dropping leading blanks keeps exactly the suffix from the first
/// non-blank line on.
pub proof fn lemma_drop_leading_blanks_at(ls: Seq<Seq<u8>>, m: int)
    requires
        0 <= m <= ls.len(),
        forall|k: int| 0 <= k < m ==> is_blank(ls[k]),
        m < ls.len() ==> !is_blank(ls[m]),
    ensures
        drop_leading_blanks(ls) == ls.skip(m),
    decreases m,
{
    if m == 0 {
        assert(ls.skip(0) =~= ls);
        if ls.len() > 0 {
            assert(ls.first() == ls[0]);
        }
    } else {
        assert(ls.first() == ls[0]);
        let t = ls.drop_first();
        assert(forall|k: int| 0 <= k < t.len() ==> t[k] == ls[k + 1]);
        lemma_drop_leading_blanks_at(t, m - 1);
        assert(t.skip(m - 1) =~= ls.skip(m));
    }
}

/// Removes the leading blank lines of `lines`.
pub fn drop_leading_blank_lines(lines: Vec<Vec<u8>>) -> (r: Vec<Vec<u8>>)
    ensures
        r.deep_view() == drop_leading_blanks(lines.deep_view()),
{
    let mut idx: usize = 0;
    while idx < lines.len() && line_is_blank(&lines[idx])
        invariant
            idx <= lines@.len(),
            forall|k: int| 0 <= k < idx ==> is_blank(lines.deep_view()[k]),
        decreases lines@.len() - idx,
    {
        proof {
            assert(lines.deep_view()[idx as int] =~= lines@[idx as int]@);
        }
        idx = idx + 1;
    }
    proof {
        if idx < lines.len() {
            assert(lines.deep_view()[idx as int] =~= lines@[idx as int]@);
        }
        lemma_drop_leading_blanks_at(lines.deep_view(), idx as int);
    }
    let mut rest = lines;
    let r = rest.split_off(idx);
    proof {
        assert(r.deep_view() =~= lines.deep_view().skip(idx as int));
    }
    r
}

/// The lines joined with single line feeds, no trailing line feed.
pub open spec fn join_nl(ls: Seq<Seq<u8>>) -> Seq<u8>
    decreases ls.len(),
{
    if ls.len() == 0 {
        Seq::empty()
    } else if ls.len() == 1 {
        ls[0]
    } else {
        ls[0] + seq![NL] + join_nl(ls.drop_first())
    }
}

/// Joining one more line appends a line feed and that line.
pub proof fn lemma_join_nl_snoc(ls: Seq<Seq<u8>>, x: Seq<u8>)
    ensures
        ls.len() == 0 ==> join_nl(ls.push(x)) == x,
        ls.len() > 0 ==> join_nl(ls.push(x)) == join_nl(ls) + seq![NL] + x,
    decreases ls.len(),
{
    let p = ls.push(x);
    if ls.len() == 0 {
        assert(p.len() == 1);
        assert(p[0] == x);
    } else if ls.len() == 1 {
        assert(p.len() == 2);
        assert(p[0] == ls[0]);
        assert(p.drop_first() =~= seq![x]);
        assert(join_nl(seq![x]) == x);
    } else {
        assert(p[0] == ls[0]);
        assert(p.drop_first() =~= ls.drop_first().push(x));
        lemma_join_nl_snoc(ls.drop_first(), x);
        assert(join_nl(p) == ls[0] + seq![NL] + join_nl(ls.drop_first().push(x)));
        assert(ls[0] + seq![NL] + (join_nl(ls.drop_first()) + seq![NL] + x) =~= (ls[0] + seq![NL]
            + join_nl(ls.drop_first())) + seq![NL] + x);
    }
}

/// Joins the lines with single line feeds between them.
pub fn join_lines(lines: &Vec<Vec<u8>>) -> (r: Vec<u8>)
    ensures
        r@ == join_nl(lines.deep_view()),
{
    let ghost dl = lines.deep_view();
    let mut r: Vec<u8> = Vec::new();
    let mut i: usize = 0;
    proof {
        assert(dl.take(0) =~= Seq::<Seq<u8>>::empty());
        assert(r@ =~= join_nl(dl.take(0)));
    }
    while i < lines.len()
        invariant
            i <= lines@.len(),
            dl == lines.deep_view(),
            r@ == join_nl(dl.take(i as int)),
        decreases lines@.len() - i,
    {
        proof {
            assert(dl.take(i + 1) =~= dl.take(i as int).push(dl[i as int]));
            lemma_join_nl_snoc(dl.take(i as int), dl[i as int]);
        }
        if i > 0 {
            r.push(NL);
        }
        let line = &lines[i];
        let mut k: usize = 0;
        let ghost base = r@;
        while k < line.len()
            invariant
                k <= line@.len(),
                r@ == base + line@.take(k as int),
            decreases line@.len() - k,
        {
            r.push(line[k]);
            proof {
                assert(base + line@.take(k + 1) =~= (base + line@.take(k as int)).push(
                    line@[k as int],
                ));
            }
            k = k + 1;
        }
        proof {
            assert(line@.take(line@.len() as int) =~= line@);
            assert(line@ =~= dl[i as int]);
            if i > 0 {
                assert(base =~= join_nl(dl.take(i as int)) + seq![NL]);
                assert(r@ =~= join_nl(dl.take(i as int)) + seq![NL] + dl[i as int]);
            } else {
                assert(r@ =~= dl[0]);
            }
        }
        i = i + 1;
    }
    proof {
        assert(dl.take(dl.len() as int) =~= dl);
    }
    r
}

/// The normalized form of raw input text: trailing whitespace trimmed
/// from the whole text, the rest split into lines, and leading blank
/// lines dropped.
pub open spec fn norm_input_spec(s: Seq<u8>) -> Seq<Seq<u8>> {
    drop_leading_blanks(split_lines(trim_end_spec(s)))
}

/// Normalizes raw input text into its sequence of lines.
pub fn normalize_input(text: &Vec<u8>) -> (r: Vec<Vec<u8>>)
    ensures
        r.deep_view() == norm_input_spec(text@),
{
    let trimmed = trim_end_bytes(text);
    let lines = split_into_lines(&trimmed);
    drop_leading_blank_lines(lines)
}

/// The normalized form of golden text: split into lines, leading blank
/// lines dropped, joined with line feeds, and the joined text trimmed
/// at its end.
pub open spec fn norm_golden_spec(s: Seq<u8>) -> Seq<u8> {
    trim_end_spec(join_nl(drop_leading_blanks(split_lines(s))))
}

/// Normalizes golden text for comparison with produced output.
pub fn normalize_golden(text: &Vec<u8>) -> (r: Vec<u8>)
    ensures
        r@ == norm_golden_spec(text@),
{
    let lines = split_into_lines(text);
    let kept = drop_leading_blank_lines(lines);
    let joined = join_lines(&kept);
    trim_end_bytes(&joined)
}

/// The produced output of a case: the callback's lines joined with line
/// feeds and the joined text trimmed at both ends.
pub open spec fn produced_spec(ls: Seq<Seq<u8>>) -> Seq<u8> {
    trim_spec(join_nl(ls))
}

/// Joins and trims the callback's output lines into the produced text.
pub fn produced_output(lines: &Vec<Vec<u8>>) -> (r: Vec<u8>)
    ensures
        r@ == produced_spec(lines.deep_view()),
{
    let joined = join_lines(lines);
    trim_bytes(&joined)
}

/// Decides whether two byte strings are equal.
pub fn bytes_equal(a: &Vec<u8>, b: &Vec<u8>) -> (r: bool)
    ensures
        r == (a@ == b@),
{
    if a.len() != b.len() {
        return false;
    }
    let mut i: usize = 0;
    while i < a.len()
        invariant
            i <= a@.len(),
            a@.len() == b@.len(),
            forall|k: int| 0 <= k < i ==> a@[k] == b@[k],
        decreases a@.len() - i,
    {
        if a[i] != b[i] {
            return false;
        }
        i = i + 1;
    }
    proof {
        assert(a@ =~= b@);
    }
    true
}

/// What `String::from_utf8_lossy` decodes the bytes to: a function of
/// the bytes alone.
pub uninterp spec fn utf8_lossy_of(bs: Seq<u8>) -> Seq<char>;

/// Relies on `String::from_utf8_lossy`: the result depends on the bytes
/// alone, and bytes that are valid UTF-8 decode losslessly.
#[verifier::external_body]
pub(crate) fn bytes_to_string(b: &Vec<u8>) -> (r: String)
    ensures
        r@ == utf8_lossy_of(b@),
        vstd::utf8::valid_utf8(b@) ==> r@ == vstd::utf8::decode_utf8(b@),
{
    String::from_utf8_lossy(b).into_owned()
}

/// A line followed by a carriage-return line feed splits exactly like
/// the same line followed by a bare line feed: the two line endings are
/// equivalent separators.
pub proof fn lemma_crlf_equals_lf(a: Seq<u8>, b: Seq<u8>)
    requires
        !a.contains(NL),
        a.len() == 0 || a.last() != CR,
    ensures
        split_lines(a + seq![CR, NL] + b) == seq![a] + split_lines(b),
        split_lines(a + seq![NL] + b) == seq![a] + split_lines(b),
{
    let s1 = a + seq![CR, NL] + b;
    assert(forall|k: int| 0 <= k < a.len() ==> s1[k] == a[k]);
    assert(forall|k: int| 0 <= k < a.len() && s1[k] == NL ==> a.contains(a[k]));
    assert(s1[a.len() as int] == CR);
    assert(s1[a.len() as int + 1] == NL);
    lemma_first_nl_at(s1, a.len() as int + 1);
    assert(first_nl(s1) == a.len() as int + 1);
    assert(s1.take(a.len() as int + 1) =~= a + seq![CR]);
    assert(chop_cr(a + seq![CR]) =~= a);
    assert(s1.skip(a.len() as int + 2) =~= b);
    assert(split_lines(s1) == seq![chop_cr(s1.take(a.len() as int + 1))] + split_lines(
        s1.skip(a.len() as int + 2),
    ));
    assert(split_lines(s1) =~= seq![a] + split_lines(b));

    let s2 = a + seq![NL] + b;
    assert(forall|k: int| 0 <= k < a.len() ==> s2[k] == a[k]);
    assert(forall|k: int| 0 <= k < a.len() && s2[k] == NL ==> a.contains(a[k]));
    assert(s2[a.len() as int] == NL);
    lemma_first_nl_at(s2, a.len() as int);
    assert(first_nl(s2) == a.len());
    assert(s2.take(a.len() as int) =~= a);
    assert(chop_cr(a) == a);
    assert(s2.skip(a.len() as int + 1) =~= b);
    assert(split_lines(s2) =~= seq![a] + split_lines(b));
}

/// The lines joined with carriage-return line feed separators.
pub open spec fn join_crlf(ls: Seq<Seq<u8>>) -> Seq<u8>
    decreases ls.len(),
{
    if ls.len() == 0 {
        Seq::empty()
    } else if ls.len() == 1 {
        ls[0]
    } else {
        ls[0] + seq![CR, NL] + join_crlf(ls.drop_first())
    }
}

/// Line-ending equivalence: text written with carriage-return line feed
/// separators normalizes exactly as the same text written with bare
/// line feed separators, for lines that hold no line feed and do not
/// themselves end in a carriage return.
pub proof fn lemma_line_ending_equivalence(ls: Seq<Seq<u8>>)
    requires
        forall|i: int|
            0 <= i < ls.len() ==> !(#[trigger] ls[i]).contains(NL) && (ls[i].len() == 0
                || ls[i].last() != CR),
    ensures
        split_lines(join_crlf(ls)) == split_lines(join_nl(ls)),
        norm_golden_spec(join_crlf(ls)) == norm_golden_spec(join_nl(ls)),
    decreases ls.len(),
{
    if ls.len() >= 2 {
        let t = ls.drop_first();
        assert(forall|k: int| 0 <= k < t.len() ==> t[k] == ls[k + 1]);
        lemma_line_ending_equivalence(t);
        lemma_crlf_equals_lf(ls[0], join_crlf(t));
        lemma_crlf_equals_lf(ls[0], join_nl(t));
        assert(split_lines(ls[0] + seq![CR, NL] + join_crlf(t)) == seq![ls[0]] + split_lines(
            join_crlf(t),
        ));
        assert(split_lines(ls[0] + seq![NL] + join_nl(t)) == seq![ls[0]] + split_lines(
            join_nl(t),
        ));
    }
}

/// No line produced by `split_lines` holds a line feed.
pub proof fn lemma_split_lines_no_nl(s: Seq<u8>)
    ensures
        forall|i: int|
            0 <= i < split_lines(s).len() ==> !(#[trigger] split_lines(s)[i]).contains(NL),
    decreases s.len(),
{
    lemma_first_nl(s);
    if s.len() > 0 {
        let i: int = first_nl(s);
        if 0 <= i < s.len() {
            let head = chop_cr(s.take(i));
            assert forall|k: int| 0 <= k < head.len() implies head[k] != NL by {
                assert(head[k] == s[k]);
            }
            assert(!head.contains(NL));
            lemma_split_lines_no_nl(s.skip(i + 1));
            let rest = split_lines(s.skip(i + 1));
            assert forall|j: int| 0 <= j < split_lines(s).len() implies !(#[trigger] split_lines(
                s,
            )[j]).contains(NL) by {
                if j == 0 {
                    assert(split_lines(s)[0] == head);
                } else {
                    assert(split_lines(s)[j] == rest[j - 1]);
                }
            }
        } else {
            assert forall|k: int| 0 <= k < s.len() implies s[k] != NL by {}
            assert(split_lines(s) == seq![s]);
            assert(!s.contains(NL));
        }
    }
}

/// Text that ends in a non-whitespace byte splits into at least one
/// line, and its last line is nonempty and ends in that same byte.
pub proof fn lemma_split_lines_last(s: Seq<u8>)
    requires
        s.len() > 0,
        !is_wsp(s.last()),
    ensures
        split_lines(s).len() > 0,
        split_lines(s).last().len() > 0,
        !is_wsp(split_lines(s).last().last()),
    decreases s.len(),
{
    lemma_first_nl(s);
    let i: int = first_nl(s);
    if 0 <= i < s.len() {
        assert(s[s.len() - 1] != NL);
        assert(i < s.len() - 1);
        let tail = s.skip(i + 1);
        assert(tail.len() > 0);
        assert(tail.last() == s.last());
        lemma_split_lines_last(tail);
        assert(split_lines(s).last() == split_lines(tail).last());
    } else {
        assert(split_lines(s) == seq![s]);
    }
}

/// The sequence left by `drop_leading_blanks` is a suffix of the input.
pub proof fn lemma_drop_leading_blanks_suffix(ls: Seq<Seq<u8>>)
    ensures
        drop_leading_blanks(ls).len() <= ls.len(),
        drop_leading_blanks(ls) == ls.skip(ls.len() - drop_leading_blanks(ls).len()),
        drop_leading_blanks(ls).len() > 0 ==> !is_blank(drop_leading_blanks(ls).first()),
        drop_leading_blanks(ls).len() > 0 ==> drop_leading_blanks(ls).last() == ls.last(),
    decreases ls.len(),
{
    let r = drop_leading_blanks(ls);
    if ls.len() > 0 && is_blank(ls.first()) {
        let t = ls.drop_first();
        lemma_drop_leading_blanks_suffix(t);
        assert(t.skip(t.len() - r.len()) =~= ls.skip(ls.len() - r.len()));
    } else {
        assert(ls.skip(0) =~= ls);
    }
}

/// Trimmed text is empty or ends in a non-whitespace byte.
pub proof fn lemma_trim_end_last(s: Seq<u8>)
    ensures
        trim_end_spec(s).len() > 0 ==> !is_wsp(trim_end_spec(s).last()),
    decreases s.len(),
{
    if s.len() > 0 && is_wsp(s.last()) {
        lemma_trim_end_last(s.drop_last());
    }
}

/// Joined lines end in the last byte of the last line, when that line
/// is nonempty.
pub proof fn lemma_join_nl_last(ls: Seq<Seq<u8>>)
    requires
        ls.len() > 0,
        ls.last().len() > 0,
    ensures
        join_nl(ls).len() > 0,
        join_nl(ls).last() == ls.last().last(),
    decreases ls.len(),
{
    if ls.len() == 1 {
        assert(join_nl(ls) == ls[0]);
    } else {
        let t = ls.drop_first();
        assert(t.last() == ls.last());
        lemma_join_nl_last(t);
        let j = ls[0] + seq![NL] + join_nl(t);
        assert(j.last() == join_nl(t).last());
    }
}

/// Splitting the joined lines gives the lines back, for lines that hold
/// no line feed, do not end in a carriage return, and whose last line
/// is nonempty.
pub proof fn lemma_split_join_identity(ls: Seq<Seq<u8>>)
    requires
        forall|i: int|
            0 <= i < ls.len() ==> !(#[trigger] ls[i]).contains(NL) && (ls[i].len() == 0
                || ls[i].last() != CR),
        ls.len() == 0 || ls.last().len() > 0,
    ensures
        split_lines(join_nl(ls)) == ls,
    decreases ls.len(),
{
    if ls.len() == 1 {
        let l = ls[0];
        assert(join_nl(ls) == l);
        assert(l.len() > 0);
        assert forall|k: int| 0 <= k < l.len() implies l[k] != NL by {
            if l[k] == NL {
                assert(l.contains(NL));
            }
        }
        lemma_first_nl_at(l, l.len() as int);
        assert(split_lines(l) == seq![l]);
        assert(seq![l] =~= ls);
    } else if ls.len() >= 2 {
        let t = ls.drop_first();
        assert(forall|k: int| 0 <= k < t.len() ==> t[k] == ls[k + 1]);
        assert(t.last() == ls.last());
        lemma_split_join_identity(t);
        lemma_crlf_equals_lf(ls[0], join_nl(t));
        assert(split_lines(join_nl(ls)) == seq![ls[0]] + split_lines(join_nl(t)));
        assert(seq![ls[0]] + t =~= ls);
    }
}

/// Normalization is idempotent: joining the normalized lines of a text
/// and normalizing again yields the same lines. The one family of
/// inputs left out is text whose normalized form holds a line that ends
/// in a bare carriage return, which the join-then-split round trip
/// would fold into the separator.
pub proof fn lemma_normalize_idempotent(s: Seq<u8>)
    requires
        forall|i: int|
            0 <= i < norm_input_spec(s).len() ==> (#[trigger] norm_input_spec(s)[i]).len() == 0
                || norm_input_spec(s)[i].last() != CR,
    ensures
        norm_input_spec(join_nl(norm_input_spec(s))) == norm_input_spec(s),
{
    let t = trim_end_spec(s);
    let sp = split_lines(t);
    let ls = norm_input_spec(s);
    lemma_trim_end_last(s);
    lemma_split_lines_no_nl(t);
    lemma_drop_leading_blanks_suffix(sp);
    assert(forall|i: int|
        0 <= i < ls.len() ==> ls[i] == sp[i + (sp.len() - ls.len())]);
    assert(forall|i: int| 0 <= i < ls.len() ==> !(#[trigger] ls[i]).contains(NL));
    if ls.len() == 0 {
        assert(join_nl(ls) == Seq::<u8>::empty());
        assert(trim_end_spec(join_nl(ls)) == Seq::<u8>::empty());
        assert(split_lines(Seq::<u8>::empty()) == Seq::<Seq<u8>>::empty());
        assert(norm_input_spec(join_nl(ls)) == drop_leading_blanks(Seq::<Seq<u8>>::empty()));
    } else {
        assert(t.len() > 0) by {
            if t.len() == 0 {
                assert(split_lines(t) == Seq::<Seq<u8>>::empty());
                assert(ls.len() == 0);
            }
        }
        lemma_split_lines_last(t);
        assert(ls.last() == sp.last());
        assert(ls.last().len() > 0);
        assert(!is_wsp(ls.last().last()));
        let j = join_nl(ls);
        lemma_join_nl_last(ls);
        assert(!is_wsp(j.last()));
        assert(trim_end_spec(j) == j);
        lemma_split_join_identity(ls);
        assert(split_lines(j) == ls);
        assert(!is_blank(ls.first()));
        assert(drop_leading_blanks(ls) == ls);
    }
}

} // verus!

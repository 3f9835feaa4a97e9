//! Deterministic discovery of test cases under a root directory.
//!
//! The walk is breadth first over an explicit queue seeded with the
//! root. The caller lists each pending directory and hands the listing
//! back; the listing is sorted by file name in byte order before its
//! entries are classified, which makes the resulting case order
//! deterministic regardless of the order the file system reports.

use vstd::prelude::*;

verus! {

/// Path separator byte.
pub const SLASH: u8 = 47;

/// Dot byte, which separates a file name from its extension.
pub const DOT: u8 = 46;

/// Byte-lexicographic order on names: the order file names are sorted in.
pub open spec fn lex_le(a: Seq<u8>, b: Seq<u8>) -> bool
    decreases a.len(),
{
    if a.len() == 0 {
        true
    } else if b.len() == 0 {
        false
    } else if a.first() < b.first() {
        true
    } else if a.first() > b.first() {
        false
    } else {
        lex_le(a.drop_first(), b.drop_first())
    }
}

/// The byte-lexicographic order is total.
pub proof fn lemma_lex_le_total(a: Seq<u8>, b: Seq<u8>)
    ensures
        lex_le(a, b) || lex_le(b, a),
    decreases a.len(),
{
    if a.len() > 0 && b.len() > 0 && a.first() == b.first() {
        lemma_lex_le_total(a.drop_first(), b.drop_first());
    }
}

/// The byte-lexicographic order is transitive.
pub proof fn lemma_lex_le_trans(a: Seq<u8>, b: Seq<u8>, c: Seq<u8>)
    requires
        lex_le(a, b),
        lex_le(b, c),
    ensures
        lex_le(a, c),
    decreases a.len(),
{
    if a.len() > 0 && b.len() > 0 && c.len() > 0 && a.first() == b.first() && b.first()
        == c.first() {
        lemma_lex_le_trans(a.drop_first(), b.drop_first(), c.drop_first());
    }
}

/// The byte-lexicographic order is antisymmetric.
pub proof fn lemma_lex_le_antisym(a: Seq<u8>, b: Seq<u8>)
    requires
        lex_le(a, b),
        lex_le(b, a),
    ensures
        a == b,
    decreases a.len(),
{
    if a.len() > 0 && b.len() > 0 && a.first() == b.first() {
        lemma_lex_le_antisym(a.drop_first(), b.drop_first());
        assert(a =~= seq![a.first()] + a.drop_first());
        assert(b =~= seq![b.first()] + b.drop_first());
    }
}

/// Compares two names in byte-lexicographic order.
pub fn bytes_le(a: &Vec<u8>, b: &Vec<u8>) -> (r: bool)
    ensures
        r == lex_le(a@, b@),
{
    let mut i: usize = 0;
    proof {
        assert(a@.skip(0) =~= a@);
        assert(b@.skip(0) =~= b@);
    }
    while i < a.len() && i < b.len()
        invariant
            i <= a@.len(),
            i <= b@.len(),
            lex_le(a@, b@) == lex_le(a@.skip(i as int), b@.skip(i as int)),
        decreases a@.len() - i,
    {
        let x = a[i];
        let y = b[i];
        proof {
            let sa = a@.skip(i as int);
            let sb = b@.skip(i as int);
            assert(sa.first() == a@[i as int]);
            assert(sb.first() == b@[i as int]);
            assert(sa.drop_first() =~= a@.skip(i + 1));
            assert(sb.drop_first() =~= b@.skip(i + 1));
        }
        if x < y {
            return true;
        }
        if x > y {
            return false;
        }
        i = i + 1;
    }
    proof {
        let sa = a@.skip(i as int);
        let sb = b@.skip(i as int);
        if i == a.len() {
            assert(sa.len() == 0);
        } else {
            assert(sb.len() == 0);
            assert(sa.len() > 0);
        }
    }
    i == a.len()
}

/// One entry of a directory listing: its file name and whether it is
/// itself a directory.
pub struct Entry {
    pub name: Vec<u8>,
    pub is_dir: bool,
}

/// A discovered test case: the path of its input file and its relative
/// name under the discovery root, with `/` separators and no leading
/// separator.
pub struct TestCase {
    pub path: Vec<u8>,
    pub name: Vec<u8>,
}

impl View for TestCase {
    type V = (Seq<u8>, Seq<u8>);

    open spec fn view(&self) -> (Seq<u8>, Seq<u8>) {
        (self.path@, self.name@)
    }
}

impl DeepView for TestCase {
    type V = (Seq<u8>, Seq<u8>);

    open spec fn deep_view(&self) -> (Seq<u8>, Seq<u8>) {
        self.view()
    }
}

/// A directory still to be listed: its path and its relative name under
/// the root (empty at the root itself).
pub struct DirTask {
    pub path: Vec<u8>,
    pub name: Vec<u8>,
}

impl View for DirTask {
    type V = (Seq<u8>, Seq<u8>);

    open spec fn view(&self) -> (Seq<u8>, Seq<u8>) {
        (self.path@, self.name@)
    }
}

/// Order on listing entries: by file name, in byte order.
pub open spec fn entry_le(a: Entry, b: Entry) -> bool {
    lex_le(a.name@, b.name@)
}

/// Inserts `e` before the first entry it precedes or equals.
pub open spec fn insert_sorted(e: Entry, es: Seq<Entry>) -> Seq<Entry>
    decreases es.len(),
{
    if es.len() == 0 {
        seq![e]
    } else if entry_le(e, es.first()) {
        seq![e] + es
    } else {
        seq![es.first()] + insert_sorted(e, es.drop_first())
    }
}

/// The listing sorted by file name: entries inserted one after the
/// other, each before the first entry it precedes or equals.
pub open spec fn sort_entries_spec(es: Seq<Entry>) -> Seq<Entry>
    decreases es.len(),
{
    if es.len() == 0 {
        Seq::empty()
    } else {
        insert_sorted(es.last(), sort_entries_spec(es.drop_last()))
    }
}

/// `insert_sorted` splits the sequence at the insertion point.
proof fn lemma_insert_sorted_at(e: Entry, es: Seq<Entry>, j: int)
    requires
        0 <= j <= es.len(),
        forall|m: int| 0 <= m < j ==> !entry_le(e, #[trigger] es[m]),
        j < es.len() ==> entry_le(e, es[j]),
    ensures
        insert_sorted(e, es) == es.take(j) + seq![e] + es.skip(j),
    decreases j,
{
    if j == 0 {
        if es.len() == 0 {
            assert(insert_sorted(e, es) == seq![e]);
            assert(es.take(0) + seq![e] + es.skip(0) =~= seq![e]);
        } else {
            assert(es.take(0) + seq![e] + es.skip(0) =~= seq![e] + es);
        }
    } else {
        assert(es[0] == es.first());
        let t = es.drop_first();
        assert(forall|k: int| 0 <= k < t.len() ==> t[k] == es[k + 1]);
        lemma_insert_sorted_at(e, t, j - 1);
        assert(insert_sorted(e, es) == seq![es.first()] + (t.take(j - 1) + seq![e] + t.skip(j
            - 1)));
        assert(t.take(j - 1) =~= es.subrange(1, j));
        assert(t.skip(j - 1) =~= es.skip(j));
        assert(seq![es.first()] + (es.subrange(1, j) + seq![e] + es.skip(j)) =~= es.take(j)
            + seq![e] + es.skip(j));
    }
}

/// Sorts a directory listing by file name in byte order.
pub fn sort_entries(es: Vec<Entry>) -> (r: Vec<Entry>)
    ensures
        r@ == sort_entries_spec(es@),
{
    let ghost orig = es@;
    let mut work = es;
    let mut r: Vec<Entry> = Vec::new();
    let ghost mut k: int = 0;
    proof {
        assert(orig.skip(0) =~= orig);
        assert(orig.take(0) =~= Seq::<Entry>::empty());
    }
    while work.len() > 0
        invariant
            0 <= k <= orig.len(),
            work@ == orig.skip(k),
            r@ == sort_entries_spec(orig.take(k)),
        decreases work@.len(),
    {
        let e = work.remove(0);
        proof {
            assert(e == orig[k]);
            assert(work@ =~= orig.skip(k + 1));
        }
        let mut j: usize = 0;
        while j < r.len() && !bytes_le(&e.name, &r[j].name)
            invariant
                j <= r@.len(),
                forall|m: int| 0 <= m < j ==> !entry_le(e, #[trigger] r@[m]),
            decreases r@.len() - j,
        {
            j = j + 1;
        }
        proof {
            lemma_insert_sorted_at(e, r@, j as int);
            assert(orig.take(k + 1).drop_last() =~= orig.take(k));
            assert(orig.take(k + 1).last() == orig[k]);
            assert(sort_entries_spec(orig.take(k + 1)) == insert_sorted(e, sort_entries_spec(
                orig.take(k),
            )));
        }
        let ghost before = r@;
        r.insert(j, e);
        proof {
            assert(r@ =~= before.take(j as int) + seq![e] + before.skip(j as int));
        }
        proof {
            k = k + 1;
        }
    }
    proof {
        assert(orig.take(k) =~= orig);
    }
    r
}

/// Entries ordered pairwise by file name.
pub open spec fn sorted_entries(es: Seq<Entry>) -> bool {
    forall|i: int, j: int| 0 <= i < j < es.len() ==> entry_le(#[trigger] es[i], #[trigger] es[j])
}

/// No two entries carry the same file name.
pub open spec fn distinct_names(es: Seq<Entry>) -> bool {
    forall|i: int, j: int|
        0 <= i < j < es.len() ==> (#[trigger] es[i]).name@ != (#[trigger] es[j]).name@
}

/// Inserting an entry adds exactly it to the contents.
proof fn lemma_insert_sorted_multiset(e: Entry, es: Seq<Entry>)
    ensures
        insert_sorted(e, es).to_multiset() == es.to_multiset().insert(e),
    decreases es.len(),
{
    broadcast use vstd::seq_lib::group_to_multiset_ensures;
    broadcast use vstd::multiset::group_multiset_axioms;

    let s = insert_sorted(e, es);
    if es.len() == 0 {
        assert(s =~= Seq::<Entry>::empty().push(e));
        assert(Seq::<Entry>::empty().push(e).to_multiset() =~= Seq::<
            Entry,
        >::empty().to_multiset().insert(e));
    } else if entry_le(e, es.first()) {
        assert(s =~= es.insert(0, e));
        assert(s.remove(0) =~= es);
        assert(s.remove(0).to_multiset() =~= s.to_multiset().remove(s[0]));
        assert(s[0] == e);
        assert(s.to_multiset().contains(e)) by {
            assert(s.contains(e)) by {
                assert(s[0] == e);
            }
        }
        assert(s.to_multiset() =~= s.to_multiset().remove(e).insert(e));
        assert(s.to_multiset() =~= es.to_multiset().insert(e));
    } else {
        let t = es.drop_first();
        lemma_insert_sorted_multiset(e, t);
        let inner = insert_sorted(e, t);
        assert(s == seq![es.first()] + inner);
        assert(s[0] == es.first());
        assert(s.remove(0) =~= inner);
        assert(s.remove(0).to_multiset() =~= s.to_multiset().remove(s[0]));
        assert(s.to_multiset().contains(es.first())) by {
            assert(s.contains(es.first())) by {
                assert(s[0] == es.first());
            }
        }
        assert(s.to_multiset() =~= s.to_multiset().remove(es.first()).insert(es.first()));
        assert(s.to_multiset() =~= inner.to_multiset().insert(es.first()));
        assert(es[0] == es.first());
        assert(es.remove(0) =~= t);
        assert(es.remove(0).to_multiset() =~= es.to_multiset().remove(es.first()));
        assert(es.to_multiset().contains(es.first())) by {
            assert(es.contains(es.first())) by {
                assert(es[0] == es.first());
            }
        }
        assert(es.to_multiset() =~= es.to_multiset().remove(es.first()).insert(es.first()));
        assert(es.to_multiset() =~= t.to_multiset().insert(es.first()));
        assert(t.to_multiset().insert(e).insert(es.first()) =~= t.to_multiset().insert(
            es.first(),
        ).insert(e));
    }
}

/// Sorting keeps exactly the contents of the listing.
pub proof fn lemma_sort_entries_multiset(es: Seq<Entry>)
    ensures
        sort_entries_spec(es).to_multiset() == es.to_multiset(),
    decreases es.len(),
{
    broadcast use vstd::seq_lib::group_to_multiset_ensures;

    if es.len() > 0 {
        lemma_sort_entries_multiset(es.drop_last());
        lemma_insert_sorted_multiset(es.last(), sort_entries_spec(es.drop_last()));
        assert(es.drop_last().push(es.last()) =~= es);
        assert(es.drop_last().push(es.last()).to_multiset() =~= es.drop_last().to_multiset().insert(
            es.last(),
        ));
    }
}

/// Inserting into a sorted sequence keeps it sorted.
proof fn lemma_insert_sorted_sorted(e: Entry, es: Seq<Entry>)
    requires
        sorted_entries(es),
    ensures
        sorted_entries(insert_sorted(e, es)),
    decreases es.len(),
{
    broadcast use vstd::seq_lib::group_to_multiset_ensures;
    broadcast use vstd::multiset::group_multiset_axioms;

    let s = insert_sorted(e, es);
    if es.len() == 0 {
    } else if entry_le(e, es.first()) {
        assert forall|i: int, j: int| 0 <= i < j < s.len() implies entry_le(
            #[trigger] s[i],
            #[trigger] s[j],
        ) by {
            if i == 0 {
                if j == 1 {
                    assert(s[1] == es[0]);
                } else {
                    assert(s[j] == es[j - 1]);
                    assert(entry_le(es[0], es[j - 1]));
                    lemma_lex_le_trans(e.name@, es[0].name@, es[j - 1].name@);
                }
            } else {
                assert(s[i] == es[i - 1]);
                assert(s[j] == es[j - 1]);
            }
        }
    } else {
        let t = es.drop_first();
        assert(forall|k: int| 0 <= k < t.len() ==> t[k] == es[k + 1]);
        lemma_insert_sorted_sorted(e, t);
        let inner = insert_sorted(e, t);
        lemma_insert_sorted_multiset(e, t);
        lemma_lex_le_total(e.name@, es.first().name@);
        assert(entry_le(es.first(), e));
        assert forall|i: int, j: int| 0 <= i < j < s.len() implies entry_le(
            #[trigger] s[i],
            #[trigger] s[j],
        ) by {
            if i == 0 {
                assert(s[j] == inner[j - 1]);
                let x = inner[j - 1];
                assert(inner.contains(x)) by {
                    assert(inner[j - 1] == x);
                }
                assert(inner.to_multiset().count(x) > 0);
                if x == e {
                    assert(entry_le(es.first(), x));
                } else {
                    assert(t.to_multiset().insert(e).count(x) == t.to_multiset().count(x));
                    assert(t.to_multiset().count(x) > 0);
                    assert(t.contains(x));
                    let m = choose|m: int| 0 <= m < t.len() && t[m] == x;
                    assert(es[m + 1] == x);
                    assert(entry_le(es[0], es[m + 1]));
                    assert(es[0] == es.first());
                }
            } else {
                assert(s[i] == inner[i - 1]);
                assert(s[j] == inner[j - 1]);
            }
        }
    }
}

/// The sorted listing is sorted.
pub proof fn lemma_sort_entries_sorted(es: Seq<Entry>)
    ensures
        sorted_entries(sort_entries_spec(es)),
    decreases es.len(),
{
    if es.len() > 0 {
        lemma_sort_entries_sorted(es.drop_last());
        lemma_insert_sorted_sorted(es.last(), sort_entries_spec(es.drop_last()));
    }
}

/// Sorting a listing of distinct file names keeps the names distinct.
proof fn lemma_sort_entries_distinct(es: Seq<Entry>)
    requires
        distinct_names(es),
    ensures
        distinct_names(sort_entries_spec(es)),
{
    broadcast use vstd::seq_lib::group_to_multiset_ensures;

    let s = sort_entries_spec(es);
    lemma_sort_entries_multiset(es);
    assert(es.no_duplicates()) by {
        assert forall|i: int, j: int|
            0 <= i < es.len() && 0 <= j < es.len() && i != j implies es[i] != es[j] by {
            if i < j {
                assert(es[i].name@ != es[j].name@);
            } else {
                assert(es[j].name@ != es[i].name@);
            }
        }
    }
    es.lemma_multiset_has_no_duplicates();
    s.lemma_multiset_has_no_duplicates_conv();
    assert forall|i: int, j: int|
        0 <= i < j < s.len() implies (#[trigger] s[i]).name@ != (#[trigger] s[j]).name@ by {
        if s[i].name@ == s[j].name@ {
            assert(s[i] != s[j]);
            assert(s.contains(s[i])) by {
                assert(s[i] == s[i]);
            }
            assert(s.contains(s[j]));
            assert(es.to_multiset().count(s[i]) > 0);
            assert(es.to_multiset().count(s[j]) > 0);
            assert(es.contains(s[i]));
            assert(es.contains(s[j]));
            let a = choose|a: int| 0 <= a < es.len() && es[a] == s[i];
            let b = choose|b: int| 0 <= b < es.len() && es[b] == s[j];
            assert(a != b);
            if a < b {
                assert(es[a].name@ != es[b].name@);
            } else {
                assert(es[b].name@ != es[a].name@);
            }
        }
    }
}

/// Two sorted sequences with the same contents and distinct file names
/// are the same sequence.
proof fn lemma_sorted_unique(a: Seq<Entry>, b: Seq<Entry>)
    requires
        sorted_entries(a),
        sorted_entries(b),
        distinct_names(a),
        a.to_multiset() == b.to_multiset(),
    ensures
        a == b,
    decreases a.len(),
{
    broadcast use vstd::seq_lib::group_to_multiset_ensures;

    if a.len() == 0 {
        assert(b.to_multiset().len() == 0);
        assert(b =~= Seq::<Entry>::empty());
    } else {
        a.to_multiset_ensures();
        b.to_multiset_ensures();
        assert(b.len() == a.len());
        assert(a.contains(a[0])) by {
            assert(a[0] == a[0]);
        }
        assert(a.to_multiset().count(a[0]) > 0);
        assert(b.to_multiset().count(a[0]) > 0);
        assert(b.contains(a[0]));
        let j = choose|j: int| 0 <= j < b.len() && b[j] == a[0];
        assert(entry_le(b[0], a[0])) by {
            if j > 0 {
                assert(entry_le(b[0], b[j]));
            } else {
                lemma_lex_le_total(b[0].name@, b[0].name@);
            }
        }
        assert(b.contains(b[0])) by {
            assert(b[0] == b[0]);
        }
        assert(b.to_multiset().count(b[0]) > 0);
        assert(a.to_multiset().count(b[0]) > 0);
        assert(a.contains(b[0]));
        let i = choose|i: int| 0 <= i < a.len() && a[i] == b[0];
        assert(entry_le(a[0], b[0])) by {
            if i > 0 {
                assert(entry_le(a[0], a[i]));
            } else {
                lemma_lex_le_total(a[0].name@, a[0].name@);
            }
        }
        lemma_lex_le_antisym(a[0].name@, b[0].name@);
        assert(a[i].name@ == a[0].name@);
        assert(i == 0);
        assert(a[0] == b[0]);
        let ta = a.drop_first();
        let tb = b.drop_first();
        assert(a.remove(0) =~= ta);
        assert(b.remove(0) =~= tb);
        assert(a.remove(0).to_multiset() =~= a.to_multiset().remove(a[0]));
        assert(b.remove(0).to_multiset() =~= b.to_multiset().remove(b[0]));
        assert(ta.to_multiset() == tb.to_multiset());
        assert(forall|k: int| 0 <= k < ta.len() ==> ta[k] == a[k + 1]);
        assert(forall|k: int| 0 <= k < tb.len() ==> tb[k] == b[k + 1]);
        assert(sorted_entries(ta));
        assert(sorted_entries(tb));
        assert(distinct_names(ta));
        lemma_sorted_unique(ta, tb);
        assert(a =~= seq![a[0]] + ta);
        assert(b =~= seq![b[0]] + tb);
    }
}

/// Discovery order is deterministic: two listings of the same files,
/// whatever order the file system reported them in, sort to the same
/// sequence, provided the file names are distinct (as names within one
/// directory are).
pub proof fn lemma_sort_entries_permutation(es1: Seq<Entry>, es2: Seq<Entry>)
    requires
        es1.to_multiset() == es2.to_multiset(),
        distinct_names(es1),
    ensures
        sort_entries_spec(es1) == sort_entries_spec(es2),
{
    lemma_sort_entries_multiset(es1);
    lemma_sort_entries_multiset(es2);
    lemma_sort_entries_sorted(es1);
    lemma_sort_entries_sorted(es2);
    lemma_sort_entries_distinct(es1);
    lemma_sorted_unique(sort_entries_spec(es1), sort_entries_spec(es2));
}

/// Index of the last dot in a file name, or `-1` when there is none.
pub open spec fn last_dot(s: Seq<u8>) -> int
    decreases s.len(),
{
    if s.len() == 0 {
        -1
    } else if s.last() == DOT {
        s.len() - 1
    } else {
        last_dot(s.drop_last())
    }
}

/// The bytes of the extension that marks a test input file.
pub open spec fn input_ext() -> Seq<u8> {
    seq![105u8, 110u8, 112u8, 117u8, 116u8]
}

/// Where no dot stands at or past a position, the last dot lies below it.
pub(crate) proof fn lemma_last_dot_below(s: Seq<u8>, m: int)
    requires
        0 <= m <= s.len(),
        forall|k: int| m <= k < s.len() ==> s[k] != DOT,
    ensures
        last_dot(s) < m,
    decreases s.len(),
{
    if s.len() > 0 && s.last() != DOT {
        let t = s.drop_last();
        assert(forall|k: int| 0 <= k < t.len() ==> t[k] == s[k]);
        if m <= t.len() {
            lemma_last_dot_below(t, m);
        } else {
            lemma_last_dot_below(t, t.len() as int);
        }
    }
}

/// A file name qualifies as a test input when the part after its last
/// dot is exactly the input extension; a name whose only dot leads it
/// (a bare dot file) has no extension and does not qualify.
pub open spec fn is_input_name(name: Seq<u8>) -> bool {
    let d: int = last_dot(name);
    d >= 1 && name.skip(d + 1) == input_ext()
}

/// `last_dot` finds a dot exactly where one last stands.
pub(crate) proof fn lemma_last_dot_at(s: Seq<u8>, m: int)
    requires
        -1 <= m < s.len(),
        m >= 0 ==> s[m] == DOT,
        forall|k: int| m < k < s.len() ==> s[k] != DOT,
    ensures
        last_dot(s) == m,
    decreases s.len(),
{
    if s.len() > 0 && s.last() != DOT {
        let t = s.drop_last();
        assert(forall|k: int| 0 <= k < t.len() ==> t[k] == s[k]);
        lemma_last_dot_at(t, m);
    }
}

/// A dot stands where `last_dot` points, and none after it.
pub(crate) proof fn lemma_last_dot_props(s: Seq<u8>)
    ensures
        last_dot(s) >= 0 ==> s[last_dot(s)] == DOT,
        -1 <= last_dot(s) < s.len(),
        forall|k: int| last_dot(s) < k < s.len() ==> s[k] != DOT,
    decreases s.len(),
{
    if s.len() > 0 && s.last() != DOT {
        let t = s.drop_last();
        assert(forall|k: int| 0 <= k < t.len() ==> t[k] == s[k]);
        lemma_last_dot_props(t);
        assert forall|k: int| last_dot(s) < k < s.len() implies s[k] != DOT by {
            if k < s.len() - 1 {
                assert(t[k] != DOT);
            } else {
                assert(s[k] == s.last());
            }
        }
    }
}

/// Decides whether a file name carries the test input extension.
pub fn has_input_extension(name: &Vec<u8>) -> (r: bool)
    ensures
        r == is_input_name(name@),
{
    let mut d: usize = name.len();
    while d > 0 && name[d - 1] != DOT
        invariant
            d <= name@.len(),
            forall|k: int| d <= k < name@.len() ==> name@[k] != DOT,
        decreases d,
    {
        d = d - 1;
    }
    if d <= 1 {
        proof {
            if d == 0 {
                lemma_last_dot_at(name@, -1);
            } else {
                lemma_last_dot_at(name@, 0);
            }
        }
        return false;
    }
    proof {
        lemma_last_dot_at(name@, d - 1);
    }
    if name.len() - d != 5 {
        proof {
            assert(name@.skip(d as int).len() != 5);
            assert(input_ext().len() == 5);
        }
        return false;
    }
    let r = name[d] == 105 && name[d + 1] == 110 && name[d + 2] == 112 && name[d + 3] == 117
        && name[d + 4] == 116;
    proof {
        let sfx = name@.skip(d as int);
        assert(forall|m: int| 0 <= m < 5 ==> sfx[m] == name@[d + m]);
        if r {
            assert(sfx =~= input_ext());
        } else {
            assert(sfx != input_ext()) by {
                if sfx == input_ext() {
                    assert(sfx[0] == 105 && sfx[1] == 110 && sfx[2] == 112 && sfx[3] == 117
                        && sfx[4] == 116);
                }
            }
        }
    }
    r
}

/// The relative name of a child: the parent's relative name, a slash,
/// and the child's file name, with no leading slash at the root.
pub open spec fn child_name_spec(base: Seq<u8>, child: Seq<u8>) -> Seq<u8> {
    if base.len() == 0 {
        child
    } else {
        base + seq![SLASH] + child
    }
}

/// The path of a child: the directory's path, a slash, and the child's
/// file name.
pub open spec fn child_path_spec(dir: Seq<u8>, child: Seq<u8>) -> Seq<u8> {
    dir + seq![SLASH] + child
}

/// Appends `src` to `dst`.
pub(crate) fn append_bytes(dst: &mut Vec<u8>, src: &Vec<u8>)
    ensures
        final(dst)@ == old(dst)@ + src@,
{
    let mut i: usize = 0;
    proof {
        assert(old(dst)@ + src@.take(0) =~= old(dst)@);
    }
    while i < src.len()
        invariant
            i <= src@.len(),
            dst@ == old(dst)@ + src@.take(i as int),
        decreases src@.len() - i,
    {
        dst.push(src[i]);
        proof {
            assert(old(dst)@ + src@.take(i + 1) =~= (old(dst)@ + src@.take(i as int)).push(
                src@[i as int],
            ));
        }
        i = i + 1;
    }
    proof {
        assert(src@.take(src@.len() as int) =~= src@);
    }
}

/// Builds the relative name of a child from its parent's relative name.
pub fn child_name(base: &Vec<u8>, child: &Vec<u8>) -> (r: Vec<u8>)
    ensures
        r@ == child_name_spec(base@, child@),
{
    let mut r: Vec<u8> = Vec::new();
    if base.len() > 0 {
        append_bytes(&mut r, base);
        r.push(SLASH);
        proof {
            assert(r@ =~= base@ + seq![SLASH]);
        }
    }
    append_bytes(&mut r, child);
    proof {
        if base@.len() == 0 {
            assert(r@ =~= child@);
        }
    }
    r
}

/// Builds the path of a child from its directory's path.
pub fn child_path(dir: &Vec<u8>, child: &Vec<u8>) -> (r: Vec<u8>)
    ensures
        r@ == child_path_spec(dir@, child@),
{
    let mut r: Vec<u8> = Vec::new();
    append_bytes(&mut r, dir);
    r.push(SLASH);
    proof {
        assert(r@ =~= dir@ + seq![SLASH]);
    }
    append_bytes(&mut r, child);
    r
}

/// The `(path, relative name)` views of the test cases a sorted listing
/// contributes: one for each entry that is a file with the input
/// extension, in listing order.
pub open spec fn case_views(dir: Seq<u8>, base: Seq<u8>, es: Seq<Entry>) -> Seq<(Seq<u8>, Seq<u8>)>
    decreases es.len(),
{
    if es.len() == 0 {
        Seq::empty()
    } else {
        let e = es.first();
        let rest = case_views(dir, base, es.drop_first());
        if !e.is_dir && is_input_name(e.name@) {
            seq![(child_path_spec(dir, e.name@), child_name_spec(base, e.name@))] + rest
        } else {
            rest
        }
    }
}

/// The `(path, relative name)` views of the directories a sorted
/// listing contributes to the queue, in listing order.
pub open spec fn dir_views(dir: Seq<u8>, base: Seq<u8>, es: Seq<Entry>) -> Seq<(Seq<u8>, Seq<u8>)>
    decreases es.len(),
{
    if es.len() == 0 {
        Seq::empty()
    } else {
        let e = es.first();
        let rest = dir_views(dir, base, es.drop_first());
        if e.is_dir {
            seq![(child_path_spec(dir, e.name@), child_name_spec(base, e.name@))] + rest
        } else {
            rest
        }
    }
}

/// One more entry at the end contributes its case at the end.
proof fn lemma_case_views_snoc(dir: Seq<u8>, base: Seq<u8>, es: Seq<Entry>, e: Entry)
    ensures
        case_views(dir, base, es.push(e)) == case_views(dir, base, es) + (if !e.is_dir
            && is_input_name(e.name@) {
            seq![(child_path_spec(dir, e.name@), child_name_spec(base, e.name@))]
        } else {
            Seq::empty()
        }),
    decreases es.len(),
{
    let p = es.push(e);
    if es.len() == 0 {
        assert(p.first() == e);
        assert(p.drop_first() =~= Seq::<Entry>::empty());
        assert(case_views(dir, base, Seq::<Entry>::empty()) == Seq::<(Seq<u8>, Seq<u8>)>::empty());
        assert(case_views(dir, base, p.drop_first()) == Seq::<(Seq<u8>, Seq<u8>)>::empty());
        if !e.is_dir && is_input_name(e.name@) {
            assert(case_views(dir, base, p) =~= seq![
                (child_path_spec(dir, e.name@), child_name_spec(base, e.name@)),
            ]);
            assert(case_views(dir, base, es) + seq![
                (child_path_spec(dir, e.name@), child_name_spec(base, e.name@)),
            ] =~= seq![(child_path_spec(dir, e.name@), child_name_spec(base, e.name@))]);
        } else {
            assert(case_views(dir, base, p) == Seq::<(Seq<u8>, Seq<u8>)>::empty());
            assert(case_views(dir, base, es) + Seq::<(Seq<u8>, Seq<u8>)>::empty() =~= Seq::<
                (Seq<u8>, Seq<u8>),
            >::empty());
        }
        assert(case_views(dir, base, es) == Seq::<(Seq<u8>, Seq<u8>)>::empty());
    } else {
        assert(p.first() == es.first());
        assert(p.drop_first() =~= es.drop_first().push(e));
        lemma_case_views_snoc(dir, base, es.drop_first(), e);
        let tailcases = case_views(dir, base, es.drop_first());
        let extra = if !e.is_dir && is_input_name(e.name@) {
            seq![(child_path_spec(dir, e.name@), child_name_spec(base, e.name@))]
        } else {
            Seq::<(Seq<u8>, Seq<u8>)>::empty()
        };
        if !es.first().is_dir && is_input_name(es.first().name@) {
            let head = seq![
                (child_path_spec(dir, es.first().name@), child_name_spec(base, es.first().name@)),
            ];
            assert(head + (tailcases + extra) =~= (head + tailcases) + extra);
        }
    }
}

/// One more entry at the end contributes its directory at the end.
proof fn lemma_dir_views_snoc(dir: Seq<u8>, base: Seq<u8>, es: Seq<Entry>, e: Entry)
    ensures
        dir_views(dir, base, es.push(e)) == dir_views(dir, base, es) + (if e.is_dir {
            seq![(child_path_spec(dir, e.name@), child_name_spec(base, e.name@))]
        } else {
            Seq::empty()
        }),
    decreases es.len(),
{
    let p = es.push(e);
    if es.len() == 0 {
        assert(p.first() == e);
        assert(p.drop_first() =~= Seq::<Entry>::empty());
        assert(dir_views(dir, base, Seq::<Entry>::empty()) == Seq::<(Seq<u8>, Seq<u8>)>::empty());
        assert(dir_views(dir, base, p.drop_first()) == Seq::<(Seq<u8>, Seq<u8>)>::empty());
        if e.is_dir {
            assert(dir_views(dir, base, p) =~= seq![
                (child_path_spec(dir, e.name@), child_name_spec(base, e.name@)),
            ]);
            assert(dir_views(dir, base, es) + seq![
                (child_path_spec(dir, e.name@), child_name_spec(base, e.name@)),
            ] =~= seq![(child_path_spec(dir, e.name@), child_name_spec(base, e.name@))]);
        } else {
            assert(dir_views(dir, base, p) == Seq::<(Seq<u8>, Seq<u8>)>::empty());
            assert(dir_views(dir, base, es) + Seq::<(Seq<u8>, Seq<u8>)>::empty() =~= Seq::<
                (Seq<u8>, Seq<u8>),
            >::empty());
        }
        assert(dir_views(dir, base, es) == Seq::<(Seq<u8>, Seq<u8>)>::empty());
    } else {
        assert(p.first() == es.first());
        assert(p.drop_first() =~= es.drop_first().push(e));
        lemma_dir_views_snoc(dir, base, es.drop_first(), e);
        let taildirs = dir_views(dir, base, es.drop_first());
        let extra = if e.is_dir {
            seq![(child_path_spec(dir, e.name@), child_name_spec(base, e.name@))]
        } else {
            Seq::<(Seq<u8>, Seq<u8>)>::empty()
        };
        if es.first().is_dir {
            let head = seq![
                (child_path_spec(dir, es.first().name@), child_name_spec(base, es.first().name@)),
            ];
            assert(head + (taildirs + extra) =~= (head + taildirs) + extra);
        }
    }
}

/// Relative names never begin with a path separator: every name a
/// listing contributes is either a bare file name (at the root) or
/// begins with the parent's relative name, so as long as the file
/// names themselves are nonempty and carry no leading separator, so
/// are all case and directory names.
pub proof fn lemma_relative_names_have_no_leading_separator(
    dir: Seq<u8>,
    base: Seq<u8>,
    es: Seq<Entry>,
)
    requires
        base.len() > 0 ==> base[0] != SLASH,
        forall|i: int|
            0 <= i < es.len() ==> (#[trigger] es[i]).name@.len() > 0 && es[i].name@[0] != SLASH,
    ensures
        forall|k: int|
            0 <= k < case_views(dir, base, es).len() ==> (#[trigger] case_views(
                dir,
                base,
                es,
            )[k]).1.len() > 0 && case_views(dir, base, es)[k].1[0] != SLASH,
        forall|k: int|
            0 <= k < dir_views(dir, base, es).len() ==> (#[trigger] dir_views(
                dir,
                base,
                es,
            )[k]).1.len() > 0 && dir_views(dir, base, es)[k].1[0] != SLASH,
    decreases es.len(),
{
    if es.len() > 0 {
        let e = es.first();
        assert(es[0] == e);
        let t = es.drop_first();
        assert(forall|i: int| 0 <= i < t.len() ==> t[i] == es[i + 1]);
        lemma_relative_names_have_no_leading_separator(dir, base, t);
        let child = child_name_spec(base, e.name@);
        assert(child.len() > 0 && child[0] != SLASH) by {
            if base.len() > 0 {
                assert(child[0] == base[0]);
            } else {
                assert(child == e.name@);
            }
        }
        let cv = case_views(dir, base, es);
        let dv = dir_views(dir, base, es);
        let crest = case_views(dir, base, t);
        let drest = dir_views(dir, base, t);
        assert forall|k: int| 0 <= k < cv.len() implies (#[trigger] cv[k]).1.len() > 0
            && cv[k].1[0] != SLASH by {
            if !e.is_dir && is_input_name(e.name@) {
                if k == 0 {
                    assert(cv[0].1 == child);
                } else {
                    assert(cv[k] == crest[k - 1]);
                }
            } else {
                assert(cv[k] == crest[k]);
            }
        }
        assert forall|k: int| 0 <= k < dv.len() implies (#[trigger] dv[k]).1.len() > 0
            && dv[k].1[0] != SLASH by {
            if e.is_dir {
                if k == 0 {
                    assert(dv[0].1 == child);
                } else {
                    assert(dv[k] == drest[k - 1]);
                }
            } else {
                assert(dv[k] == drest[k]);
            }
        }
    }
}

/// Breadth-first discovery of test cases, driven from outside: the
/// caller takes pending directories one at a time with `next_dir`,
/// lists each on the file system, and hands the listing back through
/// `add_listing`; when no directory is pending, `into_cases` yields the
/// discovered cases in their final, deterministic order.
pub struct Discovery {
    queue: std::collections::VecDeque<DirTask>,
    cases: Vec<TestCase>,
}

impl Discovery {
    /// The pending directories, front first, as `(path, relative name)`.
    pub closed spec fn pending(&self) -> Seq<(Seq<u8>, Seq<u8>)> {
        self.queue@.map_values(|t: DirTask| t@)
    }

    /// The cases found so far, in discovery order, as `(path, relative name)`.
    pub closed spec fn found(&self) -> Seq<(Seq<u8>, Seq<u8>)> {
        self.cases.deep_view()
    }

    /// Starts a discovery at `root`: the root directory is pending, with
    /// the empty relative name, and no case is found yet.
    pub fn new(root: Vec<u8>) -> (d: Discovery)
        ensures
            d.pending() == seq![(root@, Seq::<u8>::empty())],
            d.found() == Seq::<(Seq<u8>, Seq<u8>)>::empty(),
    {
        let mut queue: std::collections::VecDeque<DirTask> =
            std::collections::VecDeque::new();
        queue.push_back(DirTask { path: root, name: Vec::new() });
        let d = Discovery { queue, cases: Vec::new() };
        proof {
            assert(d.pending() =~= seq![(root@, Seq::<u8>::empty())]);
            assert(d.found() =~= Seq::<(Seq<u8>, Seq<u8>)>::empty());
        }
        d
    }

    /// Takes the front pending directory, or reports that none is left.
    pub fn next_dir(&mut self) -> (r: Option<DirTask>)
        ensures
            old(self).pending().len() == 0 ==> r is None && final(self).pending() == old(
                self,
            ).pending(),
            old(self).pending().len() > 0 ==> (r matches Some(t) && t@ == old(
                self,
            ).pending().first() && final(self).pending() == old(self).pending().drop_first()),
            final(self).found() == old(self).found(),
    {
        let r = self.queue.pop_front();
        proof {
            if old(self).queue@.len() > 0 {
                assert(final(self).pending() =~= old(self).pending().drop_first());
            }
        }
        r
    }

    /// Records the listing of a directory taken from the queue: the
    /// listing is sorted by file name, its input files become found
    /// cases in that order, and its subdirectories join the back of the
    /// queue in that order.
    pub fn add_listing(&mut self, task: &DirTask, entries: Vec<Entry>)
        ensures
            final(self).found() == old(self).found() + case_views(
                task.path@,
                task.name@,
                sort_entries_spec(entries@),
            ),
            final(self).pending() == old(self).pending() + dir_views(
                task.path@,
                task.name@,
                sort_entries_spec(entries@),
            ),
    {
        let sorted = sort_entries(entries);
        let ghost all = sorted@;
        let mut work = sorted;
        let ghost mut k: int = 0;
        proof {
            assert(all.skip(0) =~= all);
            assert(all.take(0) =~= Seq::<Entry>::empty());
            assert(old(self).found() + case_views(task.path@, task.name@, all.take(0)) =~= old(
                self,
            ).found());
            assert(old(self).pending() + dir_views(task.path@, task.name@, all.take(0)) =~= old(
                self,
            ).pending());
        }
        while work.len() > 0
            invariant
                0 <= k <= all.len(),
                work@ == all.skip(k),
                self.found() == old(self).found() + case_views(
                    task.path@,
                    task.name@,
                    all.take(k),
                ),
                self.pending() == old(self).pending() + dir_views(
                    task.path@,
                    task.name@,
                    all.take(k),
                ),
            decreases work@.len(),
        {
            let e = work.remove(0);
            proof {
                assert(e == all[k]);
                assert(work@ =~= all.skip(k + 1));
                assert(all.take(k + 1) =~= all.take(k).push(all[k]));
                lemma_case_views_snoc(task.path@, task.name@, all.take(k), e);
                lemma_dir_views_snoc(task.path@, task.name@, all.take(k), e);
            }
            let ghost found_before = self.found();
            let ghost pending_before = self.pending();
            if e.is_dir {
                let p = child_path(&task.path, &e.name);
                let n = child_name(&task.name, &e.name);
                self.queue.push_back(DirTask { path: p, name: n });
                proof {
                    assert(self.pending() =~= pending_before.push(
                        (child_path_spec(task.path@, e.name@), child_name_spec(
                            task.name@,
                            e.name@,
                        )),
                    ));
                    assert(pending_before.push(
                        (child_path_spec(task.path@, e.name@), child_name_spec(
                            task.name@,
                            e.name@,
                        )),
                    ) =~= pending_before + seq![
                        (child_path_spec(task.path@, e.name@), child_name_spec(
                            task.name@,
                            e.name@,
                        )),
                    ]);
                    assert(self.found() == found_before);
                    assert(found_before + Seq::<(Seq<u8>, Seq<u8>)>::empty() =~= found_before);
                }
            } else if has_input_extension(&e.name) {
                let p = child_path(&task.path, &e.name);
                let n = child_name(&task.name, &e.name);
                self.cases.push(TestCase { path: p, name: n });
                proof {
                    assert(self.found() =~= found_before.push(
                        (child_path_spec(task.path@, e.name@), child_name_spec(
                            task.name@,
                            e.name@,
                        )),
                    ));
                    assert(found_before.push(
                        (child_path_spec(task.path@, e.name@), child_name_spec(
                            task.name@,
                            e.name@,
                        )),
                    ) =~= found_before + seq![
                        (child_path_spec(task.path@, e.name@), child_name_spec(
                            task.name@,
                            e.name@,
                        )),
                    ]);
                    assert(self.pending() == pending_before);
                    assert(pending_before + Seq::<(Seq<u8>, Seq<u8>)>::empty() =~= pending_before);
                }
            } else {
                proof {
                    assert(found_before + Seq::<(Seq<u8>, Seq<u8>)>::empty() =~= found_before);
                    assert(pending_before + Seq::<(Seq<u8>, Seq<u8>)>::empty() =~= pending_before);
                }
            }
            proof {
                k = k + 1;
            }
        }
        proof {
            assert(all.take(k) =~= all);
        }
    }

    /// Yields the discovered cases, in discovery order.
    pub fn into_cases(self) -> (r: Vec<TestCase>)
        ensures
            r.deep_view() == self.found(),
    {
        let Discovery { queue: _, cases } = self;
        cases
    }
}

} // verus!
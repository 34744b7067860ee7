use vstd::multiset::Multiset;
use vstd::prelude::*;

use crate::extension::{compatible_extension, has_accepted_extension};

verus! {

broadcast use vstd::std_specs::vec::group_vec_axioms, vstd::seq::group_seq_axioms;

/// One filesystem entry as it was found on disk, with what lies beneath it.
pub enum Entry {
    /// Anything that is not a directory: a file, or a path that does not exist.
    File { path: String },
    /// A directory and the entries that enumerating it gave.
    Dir { path: String, entries: Vec<Entry> },
    /// A directory that could not be enumerated.
    Unreadable { path: String },
}

impl Entry {
    /// The entry's own path.
    pub open spec fn path_view(&self) -> Seq<char> {
        match self {
            Entry::File { path } => path@,
            Entry::Dir { path, .. } => path@,
            Entry::Unreadable { path } => path@,
        }
    }
}

/// What a walk of a tree found.
pub struct Collected {
    /// The accepted files, in the order they were met.
    pub files: Vec<String>,
    /// The directories that could not be enumerated and were skipped.
    pub skipped: Vec<String>,
}

/// The strings, as values.
pub open spec fn views(v: Seq<String>) -> Seq<Seq<char>> {
    v.map_values(|s: String| s@)
}

/// The path alone, when its extension is accepted; nothing otherwise.
pub open spec fn own_match(path: Seq<char>) -> Seq<Seq<char>> {
    if has_accepted_extension(path) {
        seq![path]
    } else {
        seq![]
    }
}

/// The accepted paths of an entry met while enumerating a directory: those
/// beneath it first, then the entry itself when its extension is accepted.
pub open spec fn entry_files(e: Entry) -> Seq<Seq<char>>
    decreases e,
{
    match e {
        Entry::File { path } => own_match(path@),
        Entry::Dir { path, entries } => list_files(entries@) + own_match(path@),
        Entry::Unreadable { path } => own_match(path@),
    }
}

/// The accepted paths of the entries of one directory, entry after entry.
pub open spec fn list_files(es: Seq<Entry>) -> Seq<Seq<char>>
    decreases es,
{
    if es.len() == 0 {
        seq![]
    } else {
        list_files(es.drop_last()) + entry_files(es.last())
    }
}

/// The unreadable directories beneath an entry, the entry included.
pub open spec fn entry_skipped(e: Entry) -> Seq<Seq<char>>
    decreases e,
{
    match e {
        Entry::File { .. } => seq![],
        Entry::Dir { entries, .. } => list_skipped(entries@),
        Entry::Unreadable { path } => seq![path@],
    }
}

/// The unreadable directories beneath the entries of one directory.
pub open spec fn list_skipped(es: Seq<Entry>) -> Seq<Seq<char>>
    decreases es,
{
    if es.len() == 0 {
        seq![]
    } else {
        list_skipped(es.drop_last()) + entry_skipped(es.last())
    }
}

/// The accepted files that collecting from a dropped path gives: beneath a
/// directory, its entries' files; a path that is not a directory stands for
/// itself when its extension is accepted; a directory that cannot be read
/// gives nothing.
pub open spec fn collected_files(root: Entry) -> Seq<Seq<char>> {
    match root {
        Entry::Dir { entries, .. } => list_files(entries@),
        Entry::Unreadable { .. } => seq![],
        Entry::File { .. } => entry_files(root),
    }
}

/// The unreadable directories that collecting from a dropped path skips.
pub open spec fn collected_skipped(root: Entry) -> Seq<Seq<char>> {
    entry_skipped(root)
}

/// Walks the entries of one directory, in their order.
fn collect_entries(entries: &Vec<Entry>, out: &mut Collected)
    ensures
        views(final(out).files@) == views(old(out).files@) + list_files(entries@),
        views(final(out).skipped@) == views(old(out).skipped@) + list_skipped(entries@),
    decreases entries,
{
    let mut i: usize = 0;
    while i < entries.len()
        invariant
            i <= entries@.len(),
            views(out.files@) == views(old(out).files@) + list_files(entries@.subrange(0, i as int)),
            views(out.skipped@) == views(old(out).skipped@) + list_skipped(entries@.subrange(0, i as int)),
        decreases entries@.len() - i,
    {
        collect_entry(&entries[i], out);
        proof {
            let es = entries@.subrange(0, i as int + 1);
            assert(es.drop_last() =~= entries@.subrange(0, i as int));
            assert(views(out.files@) =~= views(old(out).files@) + list_files(es));
            assert(views(out.skipped@) =~= views(old(out).skipped@) + list_skipped(es));
        }
        i = i + 1;
    }
    assert(entries@.subrange(0, entries@.len() as int) =~= entries@);
}

fn push_path(v: &mut Vec<String>, path: &String)
    ensures
        views(final(v)@) == views(old(v)@).push(path@),
{
    v.push(path.clone());
    assert(views(v@) =~= views(old(v)@).push(path@));
}

/// Walks one entry met while enumerating a directory.
fn collect_entry(e: &Entry, out: &mut Collected)
    ensures
        views(final(out).files@) == views(old(out).files@) + entry_files(*e),
        views(final(out).skipped@) == views(old(out).skipped@) + entry_skipped(*e),
    decreases e,
{
    match e {
        Entry::File { .. } => {},
        Entry::Dir { entries, .. } => {
            collect_entries(entries, out);
        },
        Entry::Unreadable { path } => {
            push_path(&mut out.skipped, path);
        },
    }
    let path = match e {
        Entry::File { path } => path,
        Entry::Dir { path, .. } => path,
        Entry::Unreadable { path } => path,
    };
    if compatible_extension(path.as_str()) {
        push_path(&mut out.files, path);
    }
    proof {
        assert(views(out.files@) =~= views(old(out).files@) + entry_files(*e));
        assert(views(out.skipped@) =~= views(old(out).skipped@) + entry_skipped(*e));
    }
}

/// Walks a dropped path and gathers the files with an accepted extension,
/// depth first; directories that cannot be enumerated are skipped and listed.
pub fn compatible_files_in_path(root: &Entry) -> (r: Collected)
    ensures
        views(r.files@) == collected_files(*root),
        views(r.skipped@) == collected_skipped(*root),
{
    let mut out = Collected { files: Vec::new(), skipped: Vec::new() };
    match root {
        Entry::Dir { entries, .. } => collect_entries(entries, &mut out),
        Entry::Unreadable { path } => push_path(&mut out.skipped, path),
        Entry::File { .. } => collect_entry(root, &mut out),
    }
    assert(views(out.files@) =~= collected_files(*root));
    assert(views(out.skipped@) =~= collected_skipped(*root));
    out
}

/// How many of the entries have an accepted extension.
pub open spec fn accepted_count(es: Seq<Entry>) -> nat {
    es.filter(|e: Entry| has_accepted_extension(e.path_view())).len()
}

/// Every entry is a plain file.
pub open spec fn all_files(es: Seq<Entry>) -> bool {
    forall|i: int| 0 <= i < es.len() ==> #[trigger] es[i] is File
}

proof fn lemma_list_files_concat(a: Seq<Entry>, b: Seq<Entry>)
    ensures
        list_files(a + b) == list_files(a) + list_files(b),
    decreases b.len(),
{
    if b.len() == 0 {
        assert(a + b =~= a);
        assert(list_files(a) + list_files(b) =~= list_files(a));
    } else {
        lemma_list_files_concat(a, b.drop_last());
        assert((a + b).drop_last() =~= a + b.drop_last());
        assert((a + b).last() == b.last());
        assert(list_files(a + b) =~= list_files(a) + list_files(b));
    }
}

proof fn lemma_flat_count(es: Seq<Entry>)
    requires
        all_files(es),
    ensures
        list_files(es).len() == accepted_count(es),
    decreases es.len(),
{
    if es.len() > 0 {
        let pred = |e: Entry| has_accepted_extension(e.path_view());
        assert(all_files(es.drop_last()));
        lemma_flat_count(es.drop_last());
        assert(es.last() is File);
        es.drop_last().lemma_filter_push(es.last(), pred);
        assert(es.drop_last().push(es.last()) =~= es);
        assert(entry_files(es.last()) == own_match(es.last().path_view()));
    }
}

/// In a directory whose entries are plain files and one subdirectory that
/// holds plain files only, and whose own name is not accepted, the collection
/// holds exactly the accepted files at the top plus those in the subdirectory.
pub proof fn lemma_collected_count(root: Entry, before: Seq<Entry>, sub: Entry, after: Seq<Entry>)
    requires
        root matches Entry::Dir { entries, .. } && entries@ == before + seq![sub] + after,
        all_files(before),
        all_files(after),
        sub matches Entry::Dir { entries, .. } && all_files(entries@),
        !has_accepted_extension(sub.path_view()),
    ensures
        collected_files(root).len() == accepted_count(before + after) + accepted_count(
            sub->entries@,
        ),
{
    let sub_entries = sub->entries@;
    lemma_list_files_concat(before + seq![sub], after);
    lemma_list_files_concat(before, seq![sub]);
    lemma_list_files_concat(before, after);
    assert(seq![sub].drop_last() =~= Seq::<Entry>::empty());
    assert(list_files(seq![sub]) =~= list_files(Seq::<Entry>::empty()) + entry_files(sub));
    assert(entry_files(sub) =~= list_files(sub_entries));
    lemma_flat_count(sub_entries);
    assert(all_files(before + after));
    lemma_flat_count(before);
    lemma_flat_count(after);
    lemma_flat_count(before + after);
}

/// `f` maps `0..n` one to one into `0..n`.
pub open spec fn is_permutation(f: Seq<int>, n: int) -> bool {
    &&& f.len() == n
    &&& forall|i: int| 0 <= i < n ==> 0 <= #[trigger] f[i] < n
    &&& forall|i: int, j: int| 0 <= i < n && 0 <= j < n && i != j ==> f[i] != f[j]
}

/// How one tree's directories were reordered into another's: for a
/// directory, where each of its entries went, and how each was reordered.
pub enum Reorder {
    /// For a file, or a directory that could not be read: nothing to reorder.
    Keep,
    /// For a directory: where each entry went, and how each was reordered.
    Dir { perm: Seq<int>, children: Seq<Reorder> },
}

/// `b` is `a` with the entries of its directories, at any depth, enumerated
/// in another order, as `w` gives: entry `i` of a directory of `a` is entry
/// `perm[i]` of the same directory of `b`.
pub open spec fn reordered_by(a: Entry, b: Entry, w: Reorder) -> bool
    decreases a,
{
    match a {
        Entry::File { path: p } => b matches Entry::File { path: q } && p@ == q@,
        Entry::Unreadable { path: p } => b matches Entry::Unreadable { path: q } && p@ == q@,
        Entry::Dir { path: p, entries: ea } => match b {
            Entry::Dir { path: q, entries: eb } => match w {
                Reorder::Dir { perm, children } => {
                    &&& p@ == q@
                    &&& ea@.len() == eb@.len()
                    &&& is_permutation(perm, ea@.len() as int)
                    &&& children.len() == ea@.len()
                    &&& entries_reordered(ea@, eb@, perm, children, ea@.len() as int)
                },
                Reorder::Keep => false,
            },
            _ => false,
        },
    }
}

/// The first `n` entries of `ea` are reordered into `eb` as `perm` and
/// `children` give.
pub open spec fn entries_reordered(
    ea: Seq<Entry>,
    eb: Seq<Entry>,
    perm: Seq<int>,
    children: Seq<Reorder>,
    n: int,
) -> bool
    decreases ea, n,
{
    if n <= 0 {
        true
    } else {
        &&& n <= ea.len()
        &&& entries_reordered(ea, eb, perm, children, n - 1)
        &&& reordered_by(ea[n - 1], eb[perm[n - 1]], children[n - 1])
    }
}

proof fn lemma_entries_reordered_each(
    ea: Seq<Entry>,
    eb: Seq<Entry>,
    perm: Seq<int>,
    children: Seq<Reorder>,
    n: int,
    i: int,
)
    requires
        entries_reordered(ea, eb, perm, children, n),
        0 <= i < n,
    ensures
        reordered_by(ea[i], eb[perm[i]], children[i]),
    decreases n,
{
    if i < n - 1 {
        lemma_entries_reordered_each(ea, eb, perm, children, n - 1, i);
    }
}

spec fn ms_sum(s: Seq<Multiset<Seq<char>>>) -> Multiset<Seq<char>>
    decreases s.len(),
{
    if s.len() == 0 {
        Multiset::empty()
    } else {
        ms_sum(s.drop_last()).add(s.last())
    }
}

spec fn entry_counts(es: Seq<Entry>) -> Seq<Multiset<Seq<char>>> {
    es.map_values(|e: Entry| entry_files(e).to_multiset())
}

proof fn lemma_list_counts(es: Seq<Entry>)
    ensures
        list_files(es).to_multiset() == ms_sum(entry_counts(es)),
    decreases es.len(),
{
    broadcast use vstd::seq_lib::lemma_multiset_commutative, vstd::multiset::group_multiset_axioms;

    if es.len() == 0 {
        assert(list_files(es) =~= Seq::<Seq<char>>::empty());
        Seq::<Seq<char>>::empty().to_multiset_ensures();
        assert(list_files(es).to_multiset() =~= Multiset::empty());
    } else {
        lemma_list_counts(es.drop_last());
        assert(entry_counts(es).drop_last() =~= entry_counts(es.drop_last()));
        assert(entry_counts(es).last() == entry_files(es.last()).to_multiset());
        assert(list_files(es).to_multiset() =~= ms_sum(entry_counts(es)));
    }
}

proof fn lemma_ms_sum_remove(b: Seq<Multiset<Seq<char>>>, k: int)
    requires
        0 <= k < b.len(),
    ensures
        ms_sum(b) == ms_sum(b.remove(k)).add(b[k]),
    decreases b.len(),
{
    broadcast use vstd::multiset::group_multiset_axioms;

    if k == b.len() - 1 {
        assert(b.remove(k) =~= b.drop_last());
    } else {
        lemma_ms_sum_remove(b.drop_last(), k);
        assert(b.remove(k).drop_last() =~= b.drop_last().remove(k));
        assert(b.remove(k).last() == b.last());
        assert(ms_sum(b) =~= ms_sum(b.remove(k)).add(b[k]));
    }
}

proof fn lemma_ms_sum_permuted(a: Seq<Multiset<Seq<char>>>, b: Seq<Multiset<Seq<char>>>, f: Seq<int>)
    requires
        a.len() == b.len(),
        is_permutation(f, a.len() as int),
        forall|i: int| 0 <= i < a.len() ==> b[#[trigger] f[i]] == a[i],
    ensures
        ms_sum(a) == ms_sum(b),
    decreases a.len(),
{
    if a.len() > 0 {
        let n = a.len() as int;
        let k = f[n - 1];
        lemma_ms_sum_remove(b, k);
        let b2 = b.remove(k);
        let f2 = Seq::new((n - 1) as nat, |i: int| if f[i] < k { f[i] } else { f[i] - 1 });
        assert forall|i: int| 0 <= i < n - 1 implies 0 <= #[trigger] f2[i] < n - 1 && b2[f2[i]]
            == a.drop_last()[i] by {
            assert(f[i] != f[n - 1]);
        }
        assert forall|i: int, j: int| 0 <= i < n - 1 && 0 <= j < n - 1 && i != j implies f2[i]
            != f2[j] by {
            assert(f[i] != f[j]);
            assert(f[i] != k && f[j] != k);
        }
        lemma_ms_sum_permuted(a.drop_last(), b2, f2);
    }
}

proof fn lemma_list_reorder(ea: Seq<Entry>, eb: Seq<Entry>, perm: Seq<int>, children: Seq<Reorder>)
    requires
        ea.len() == eb.len(),
        children.len() == ea.len(),
        is_permutation(perm, ea.len() as int),
        entries_reordered(ea, eb, perm, children, ea.len() as int),
    ensures
        list_files(ea).to_multiset() == list_files(eb).to_multiset(),
    decreases ea,
{
    assert forall|i: int| 0 <= i < ea.len() implies entry_counts(eb)[#[trigger] perm[i]]
        == entry_counts(ea)[i] by {
        lemma_entries_reordered_each(ea, eb, perm, children, ea.len() as int, i);
        lemma_entry_reorder(ea[i], eb[perm[i]], children[i]);
    }
    lemma_ms_sum_permuted(entry_counts(ea), entry_counts(eb), perm);
    lemma_list_counts(ea);
    lemma_list_counts(eb);
}

proof fn lemma_entry_reorder(a: Entry, b: Entry, w: Reorder)
    requires
        reordered_by(a, b, w),
    ensures
        entry_files(a).to_multiset() == entry_files(b).to_multiset(),
    decreases a,
{
    broadcast use vstd::seq_lib::lemma_multiset_commutative;

    if let Entry::Dir { path: p, entries: ea } = a {
        lemma_list_reorder(ea@, b->entries@, w->perm, w->children);
        assert(own_match(p@) == own_match(b.path_view()));
    } else {
        assert(entry_files(a) == entry_files(b));
    }
}

/// Collecting from two trees that differ only in the order in which the
/// entries of directories were enumerated, at any depth, gives the same
/// files, each as often: collecting again from an unchanged tree gives the
/// same files whatever order enumerating takes.
pub proof fn lemma_collected_reorder(a: Entry, b: Entry, w: Reorder)
    requires
        reordered_by(a, b, w),
    ensures
        collected_files(a).to_multiset() == collected_files(b).to_multiset(),
{
    match a {
        Entry::Dir { entries: ea, .. } => {
            lemma_list_reorder(ea@, b->entries@, w->perm, w->children);
        },
        Entry::File { .. } => lemma_entry_reorder(a, b, w),
        Entry::Unreadable { .. } => {},
    }
}

/// Every path that collecting gives has an accepted extension.
pub open spec fn all_accepted(paths: Seq<Seq<char>>) -> bool {
    forall|i: int| 0 <= i < paths.len() ==> has_accepted_extension(#[trigger] paths[i])
}

proof fn lemma_entry_accepted(e: Entry)
    ensures
        all_accepted(entry_files(e)),
    decreases e,
{
    if let Entry::Dir { entries, .. } = e {
        lemma_list_accepted(entries@);
    }
}

proof fn lemma_list_accepted(es: Seq<Entry>)
    ensures
        all_accepted(list_files(es)),
    decreases es,
{
    if es.len() > 0 {
        lemma_list_accepted(es.drop_last());
        lemma_entry_accepted(es.last());
    }
}

/// No path enters a collection unless its extension is accepted.
pub proof fn lemma_collected_accepted(root: Entry)
    ensures
        all_accepted(collected_files(root)),
{
    match root {
        Entry::Dir { entries, .. } => lemma_list_accepted(entries@),
        Entry::File { .. } => lemma_entry_accepted(root),
        Entry::Unreadable { .. } => {},
    }
}

} // verus!

//! The file collector: turns raw traversal entries into file records and
//! sorts them by descending size. Entries that could not be statted and
//! entries that are not regular files are skipped silently; that loss is
//! the intended best-effort policy. The collected outcome depends only on
//! which entries arrived, not on the order concurrent workers delivered
//! them in.

use vstd::prelude::*;
use vstd::assert_multisets_equal;
use vstd::multiset::Multiset;
use crate::model::{FileInfo, RawEntry, is_regular_file, sorted_desc};

verus! {

/// The (path, size) view of a file record.
pub open spec fn file_view(f: FileInfo) -> (Seq<char>, u64) {
    (f.path@, f.size_bytes)
}

/// The (path, size) views of a file list.
pub open spec fn files_view(files: Seq<FileInfo>) -> Seq<(Seq<char>, u64)> {
    files.map_values(|f: FileInfo| file_view(f))
}

/// What collection produces from a stream of raw entries: one
/// (path, size) record per successfully statted regular file, in stream
/// order.
pub open spec fn collected(entries: Seq<RawEntry>) -> Seq<(Seq<char>, u64)> {
    entries.filter(|e: RawEntry| is_regular_file(e)).map_values(
        |e: RawEntry| (e.path@, e.meta->Some_0.size_bytes),
    )
}

/// Builds the file records for a volume from its raw entries.
pub fn collect(entries: Vec<RawEntry>) -> (files: Vec<FileInfo>)
    ensures
        files_view(files@) == collected(entries@),
{
    let mut files: Vec<FileInfo> = Vec::new();
    let mut i: usize = 0;
    while i < entries.len()
        invariant
            i <= entries@.len(),
            files_view(files@) == collected(entries@.subrange(0, i as int)),
        decreases entries@.len() - i,
    {
        let e = &entries[i];
        let ghost prefix = entries@.subrange(0, i as int);
        let ghost prefix2 = entries@.subrange(0, i as int + 1);
        match &e.meta {
            Some(m) => {
                if m.is_file {
                    let record = FileInfo { path: e.path.clone(), size_bytes: m.size_bytes };
                    files.push(record);
                }
            },
            None => {},
        }
        proof {
            reveal(Seq::filter);
            assert(prefix2.drop_last() =~= prefix);
            assert(prefix2.last() == entries@[i as int]);
            let p = |e: RawEntry| is_regular_file(e);
            let fv = |e: RawEntry| (e.path@, e.meta->Some_0.size_bytes);
            if is_regular_file(entries@[i as int]) {
                assert(prefix2.filter(p) =~= prefix.filter(p).push(entries@[i as int]));
                assert(collected(prefix2) =~= collected(prefix).push(fv(entries@[i as int])));
                assert(files_view(files@) =~= collected(prefix2));
            } else {
                assert(prefix2.filter(p) =~= prefix.filter(p));
                assert(files_view(files@) =~= collected(prefix2));
            }
        }
        i += 1;
    }
    proof {
        assert(entries@.subrange(0, entries@.len() as int) =~= entries@);
    }
    files
}

/// Sorts a file list in place, non-increasing by size. The records are
/// rearranged, never changed: the multiset of records is preserved.
pub fn sort_files_desc(v: &mut Vec<FileInfo>)
    ensures
        sorted_desc(final(v)@),
        final(v)@.to_multiset() == old(v)@.to_multiset(),
{
    broadcast use vstd::seq_lib::group_to_multiset_ensures;

    let mut out: Vec<FileInfo> = Vec::new();
    proof {
        assert(out@.to_multiset().add(v@.to_multiset()) =~= old(v)@.to_multiset()) by {
            assert(out@ =~= Seq::<FileInfo>::empty());
            out@.to_multiset_ensures();
            assert(out@.to_multiset().len() == 0);
            assert(out@.to_multiset() =~= Multiset::<FileInfo>::empty());
        }
    }
    while v.len() > 0
        invariant
            sorted_desc(out@),
            forall|a: int, b: int|
                0 <= a < out@.len() && 0 <= b < v@.len() ==> #[trigger] out@[a].size_bytes
                    >= #[trigger] v@[b].size_bytes,
            out@.to_multiset().add(v@.to_multiset()) == old(v)@.to_multiset(),
        decreases v@.len(),
    {
        let mut best: usize = 0;
        let mut k: usize = 1;
        while k < v.len()
            invariant
                best < k <= v@.len(),
                v@.len() > 0,
                forall|j: int| 0 <= j < k ==> v@[best as int].size_bytes >= #[trigger] v@[j].size_bytes,
            decreases v@.len() - k,
        {
            if v[k].size_bytes > v[best].size_bytes {
                best = k;
            }
            k += 1;
        }
        let ghost pre_out = out@;
        let ghost pre_v = v@;
        let x = v.remove(best);
        out.push(x);
        proof {
            pre_v.to_multiset_ensures();
            pre_out.to_multiset_ensures();
            assert(pre_v.remove(best as int).to_multiset() =~= pre_v.to_multiset().remove(x));
            assert(pre_out.push(x).to_multiset() =~= pre_out.to_multiset().insert(x));
            assert(pre_v.to_multiset().count(x) > 0) by {
                assert(pre_v.contains(x));
            }
            assert_multisets_equal!(
                pre_out.to_multiset().insert(x).add(pre_v.to_multiset().remove(x)),
                pre_out.to_multiset().add(pre_v.to_multiset()),
            );
            // every element left in v sits at an old index, so x still tops it
            assert(forall|b: int|
                0 <= b < v@.len() ==> #[trigger] v@[b].size_bytes <= x.size_bytes);
        }
    }
    *v = out;
}

/// Sequence filtering agrees with multiset filtering: which records come
/// out depends only on what went in, not on arrival order.
proof fn lemma_filter_to_multiset<A>(s: Seq<A>, p: spec_fn(A) -> bool)
    ensures
        s.filter(p).to_multiset() == s.to_multiset().filter(p),
    decreases s.len(),
{
    broadcast use vstd::seq_lib::group_to_multiset_ensures;
    broadcast use vstd::multiset::group_multiset_axioms;

    reveal(Seq::filter);
    if s.len() == 0 {
        assert(s.filter(p) =~= Seq::<A>::empty());
        assert(s.to_multiset().len() == 0);
        assert_multisets_equal!(s.filter(p).to_multiset(), s.to_multiset().filter(p));
    } else {
        let dl = s.drop_last();
        let l = s.last();
        lemma_filter_to_multiset(dl, p);
        assert(s =~= dl.push(l));
        assert(dl.push(l).to_multiset() =~= dl.to_multiset().insert(l));
        if p(l) {
            assert(s.filter(p) == dl.filter(p).push(l));
            assert(dl.filter(p).push(l).to_multiset() =~= dl.filter(p).to_multiset().insert(l));
        }
        assert_multisets_equal!(s.filter(p).to_multiset(), s.to_multiset().filter(p));
    }
}

/// Mapping respects permutations: sequences with the same multiset map to
/// sequences with the same multiset.
pub proof fn lemma_map_values_to_multiset<A, B>(a: Seq<A>, b: Seq<A>, f: spec_fn(A) -> B)
    requires
        a.to_multiset() == b.to_multiset(),
    ensures
        a.map_values(f).to_multiset() == b.map_values(f).to_multiset(),
    decreases a.len(),
{
    broadcast use vstd::seq_lib::group_to_multiset_ensures;

    if a.len() == 0 {
        a.to_multiset_ensures();
        b.to_multiset_ensures();
        assert(b.len() == 0);
        assert(a.map_values(f) =~= Seq::<B>::empty());
        assert(b.map_values(f) =~= Seq::<B>::empty());
    } else {
        let l = a.last();
        let a2 = a.drop_last();
        assert(a =~= a2.push(l));
        assert(a.to_multiset().count(l) > 0) by {
            assert(a.contains(l));
        }
        assert(b.contains(l));
        let j = choose|j: int| 0 <= j < b.len() && b[j] == l;
        let b2 = b.remove(j);
        assert(a2.to_multiset() =~= a.to_multiset().remove(l)) by {
            assert(a2.push(l).to_multiset() =~= a2.to_multiset().insert(l));
            assert_multisets_equal!(a2.to_multiset().insert(l).remove(l), a2.to_multiset());
        }
        assert(b2.to_multiset() =~= b.to_multiset().remove(l));
        lemma_map_values_to_multiset(a2, b2, f);
        assert(a.map_values(f) =~= a2.map_values(f).push(f(l)));
        assert(b2.map_values(f) =~= b.map_values(f).remove(j));
        assert(a2.map_values(f).push(f(l)).to_multiset() =~= a2.map_values(f).to_multiset().insert(
            f(l),
        ));
        assert(b.map_values(f).remove(j).to_multiset() =~= b.map_values(f).to_multiset().remove(
            b.map_values(f)[j],
        ));
        assert(b.map_values(f)[j] == f(l));
        assert(b.map_values(f).to_multiset().count(f(l)) > 0) by {
            assert(b.map_values(f).contains(f(l)));
        }
        assert_multisets_equal!(
            b.map_values(f).to_multiset().remove(f(l)).insert(f(l)),
            b.map_values(f).to_multiset(),
        );
    }
}

/// Concurrent collection is order-independent: two scans that deliver the
/// same entries (as a multiset, in any arrival order, from any number of
/// workers) collect the same number of files, and for an error-free tree
/// that number is the number of regular files delivered.
pub proof fn lemma_collect_order_independent(a: Seq<RawEntry>, b: Seq<RawEntry>)
    requires
        a.to_multiset() == b.to_multiset(),
    ensures
        collected(a).len() == collected(b).len(),
        collected(a).len() == a.filter(|e: RawEntry| is_regular_file(e)).len(),
{
    broadcast use vstd::seq_lib::group_to_multiset_ensures;

    let p = |e: RawEntry| is_regular_file(e);
    lemma_filter_to_multiset(a, p);
    lemma_filter_to_multiset(b, p);
    assert(a.filter(p).to_multiset().len() == b.filter(p).to_multiset().len());
    assert(a.filter(p).len() == a.filter(p).to_multiset().len());
    assert(b.filter(p).len() == b.filter(p).to_multiset().len());
}

} // verus!

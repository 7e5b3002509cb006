//! The report view: in-memory narrowing of a volume's file list by
//! extension suffix and name substring, and the re-sorted top-five
//! selection shown for each volume. Pure over the report: callers get
//! fresh records, the report itself is never changed.

use vstd::prelude::*;
use vstd::assert_multisets_equal;
use crate::collect::{file_view, files_view, sort_files_desc};
use crate::model::{DiskInfo, FileInfo, sorted_desc};
use crate::numfmt::{push_2dp, two_dp_digits};
use crate::text::{contains_seq, str_contains, str_ends_with};

verus! {

/// How many files the view shows per volume.
pub const TOP_FILES: usize = 5;

/// A file matches when its path ends with the extension filter and
/// contains the name filter; an empty filter matches everything, and the
/// two tests apply independently.
pub open spec fn matches_filters(path: Seq<char>, ext: Seq<char>, name: Seq<char>) -> bool {
    ext.is_suffix_of(path) && contains_seq(path, name)
}

/// The view records (path, size) kept by the filters, in report order.
pub open spec fn filtered_views(
    files: Seq<(Seq<char>, u64)>,
    ext: Seq<char>,
    name: Seq<char>,
) -> Seq<(Seq<char>, u64)> {
    files.filter(|t: (Seq<char>, u64)| matches_filters(t.0, ext, name))
}

/// Narrows a volume's file list to the entries matching both filters,
/// keeping the original order.
pub fn filter_files(files: &Vec<FileInfo>, ext: &String, name: &String) -> (out: Vec<FileInfo>)
    ensures
        files_view(out@) == filtered_views(files_view(files@), ext@, name@),
{
    let mut out: Vec<FileInfo> = Vec::new();
    let mut i: usize = 0;
    let ghost p = |t: (Seq<char>, u64)| matches_filters(t.0, ext@, name@);
    while i < files.len()
        invariant
            i <= files@.len(),
            files_view(out@) == files_view(files@.subrange(0, i as int)).filter(p),
            p == (|t: (Seq<char>, u64)| matches_filters(t.0, ext@, name@)),
        decreases files@.len() - i,
    {
        let f = &files[i];
        let keep = str_ends_with(f.path.as_str(), ext.as_str()) && str_contains(
            f.path.as_str(),
            name.as_str(),
        );
        if keep {
            out.push(FileInfo { path: f.path.clone(), size_bytes: f.size_bytes });
        }
        proof {
            reveal(Seq::filter);
            let prefix = files@.subrange(0, i as int);
            let prefix2 = files@.subrange(0, i as int + 1);
            assert(prefix2.drop_last() =~= prefix);
            assert(files_view(prefix2).drop_last() =~= files_view(prefix));
            assert(files_view(prefix2).last() == file_view(files@[i as int]));
            if keep {
                assert(files_view(prefix2).filter(p) =~= files_view(prefix).filter(p).push(
                    file_view(files@[i as int]),
                ));
                assert(files_view(out@) =~= files_view(prefix2).filter(p));
            } else {
                assert(files_view(prefix2).filter(p) =~= files_view(prefix).filter(p));
                assert(files_view(out@) =~= files_view(prefix2).filter(p));
            }
        }
        i += 1;
    }
    proof {
        assert(files@.subrange(0, files@.len() as int) =~= files@);
    }
    out
}

/// `x` appears in `y` in order: every element of `x` is drawn from `y`,
/// left to right, without reordering.
pub open spec fn is_subseq_of<A>(x: Seq<A>, y: Seq<A>) -> bool
    decreases x.len(), y.len(),
{
    if x.len() == 0 {
        true
    } else if y.len() == 0 {
        false
    } else {
        (x.last() == y.last() && is_subseq_of(x.drop_last(), y.drop_last())) || is_subseq_of(
            x,
            y.drop_last(),
        )
    }
}

/// What a filter keeps is a subsequence of what went in.
pub proof fn lemma_filter_is_subseq<A>(s: Seq<A>, p: spec_fn(A) -> bool)
    ensures
        is_subseq_of(s.filter(p), s),
    decreases s.len(),
{
    reveal(Seq::filter);
    if s.len() == 0 {
        assert(s.filter(p) =~= Seq::<A>::empty());
    } else {
        let dl = s.drop_last();
        lemma_filter_is_subseq(dl, p);
        if p(s.last()) {
            assert(s.filter(p).last() == s.last());
            assert(s.filter(p).drop_last() =~= dl.filter(p));
        } else {
            assert(s.filter(p) =~= dl.filter(p));
            if s.filter(p).len() == 0 {
            } else {
                assert(is_subseq_of(s.filter(p), s.drop_last()));
            }
        }
    }
}

/// Filtering is a pure narrowing: the kept records form a subsequence
/// (by path and size) of the volume's files.
pub proof fn lemma_filter_narrows(files: Seq<(Seq<char>, u64)>, ext: Seq<char>, name: Seq<char>)
    ensures
        is_subseq_of(filtered_views(files, ext, name), files),
{
    lemma_filter_is_subseq(files, |t: (Seq<char>, u64)| matches_filters(t.0, ext, name));
}

/// With both filters empty nothing is narrowed: every record is kept.
pub proof fn lemma_empty_filters_keep_all(files: Seq<(Seq<char>, u64)>)
    ensures
        filtered_views(files, Seq::<char>::empty(), Seq::<char>::empty()) == files,
    decreases files.len(),
{
    reveal(Seq::filter);
    let e = Seq::<char>::empty();
    let p = |t: (Seq<char>, u64)| matches_filters(t.0, e, e);
    if files.len() == 0 {
        assert(files.filter(p) =~= files);
    } else {
        lemma_empty_filters_keep_all(files.drop_last());
        let l = files.last();
        assert(p(l)) by {
            assert(e.is_suffix_of(l.0)) by {
                assert(l.0.subrange(l.0.len() as int, l.0.len() as int) =~= e);
            }
            assert(contains_seq(l.0, e)) by {
                assert(l.0.subrange(0, 0 + e.len() as int) =~= e);
            }
        }
        assert(files.filter(p) =~= files.drop_last().filter(p).push(l));
        assert(files.drop_last().push(l) =~= files);
    }
}

/// The filtered, re-sorted, truncated selection the view shows: at most
/// `TOP_FILES` records, sorted non-increasing by size, drawn from the
/// matching records, and no shown record is smaller than a withheld one.
pub fn top_files(files: &Vec<FileInfo>, ext: &String, name: &String) -> (out: Vec<FileInfo>)
    ensures
        ({
            let kept = filtered_views(files_view(files@), ext@, name@);
            &&& sorted_desc(out@)
            &&& out@.len() == if kept.len() < TOP_FILES {
                kept.len()
            } else {
                TOP_FILES as nat
            }
            &&& forall|t: (Seq<char>, u64)|
                #[trigger] files_view(out@).to_multiset().count(t) <= kept.to_multiset().count(t)
            &&& forall|t: (Seq<char>, u64)|
                files_view(out@).to_multiset().count(t) < kept.to_multiset().count(t) ==> forall|
                    i: int,
                |
                    0 <= i < out@.len() ==> (#[trigger] out@[i]).size_bytes >= t.1
        }),
{
    broadcast use vstd::seq_lib::group_to_multiset_ensures;

    let mut sorted = filter_files(files, ext, name);
    let ghost pre = sorted@;
    sort_files_desc(&mut sorted);
    let ghost kept = filtered_views(files_view(files@), ext@, name@);
    let ghost full = sorted@;
    proof {
        crate::collect::lemma_map_values_to_multiset(full, pre, |f: FileInfo| file_view(f));
        assert(files_view(pre) == kept);
        assert(files_view(full).to_multiset() == kept.to_multiset());
    }
    let n = if sorted.len() < TOP_FILES {
        sorted.len()
    } else {
        TOP_FILES
    };
    sorted.truncate(n);
    proof {
        assert(full.len() == pre.len()) by {
            full.to_multiset_ensures();
            pre.to_multiset_ensures();
        }
        assert(kept.len() == pre.len());
        assert(sorted@ =~= full.subrange(0, n as int));
        assert(sorted_desc(sorted@)) by {
            assert(forall|i: int| 0 <= i < sorted@.len() ==> sorted@[i] == full[i]);
        }
        let tail = full.subrange(n as int, full.len() as int);
        assert(full =~= full.subrange(0, n as int) + tail);
        vstd::seq_lib::lemma_multiset_commutative(full.subrange(0, n as int), tail);
        assert(files_view(full) =~= files_view(sorted@) + files_view(tail));
        vstd::seq_lib::lemma_multiset_commutative(files_view(sorted@), files_view(tail));
        // the records shown are among the kept ones
        assert forall|t: (Seq<char>, u64)|
            #[trigger] files_view(sorted@).to_multiset().count(t) <= kept.to_multiset().count(
                t,
            ) by {
            assert(files_view(full).to_multiset().count(t) == kept.to_multiset().count(t));
        }
        // anything withheld is no larger than anything shown
        assert forall|t: (Seq<char>, u64)|
            files_view(sorted@).to_multiset().count(t) < kept.to_multiset().count(t) implies forall|
            i: int,
        |
            0 <= i < sorted@.len() ==> (#[trigger] sorted@[i]).size_bytes >= t.1 by {
            assert(files_view(tail).to_multiset().count(t) > 0);
            assert(files_view(tail).contains(t));
            let j = choose|j: int| 0 <= j < files_view(tail).len() && files_view(tail)[j] == t;
            assert(file_view(tail[j]) == t);
            assert(tail[j] == full[n + j]);
            assert forall|i: int| 0 <= i < sorted@.len() implies (#[trigger] sorted@[i]).size_bytes
                >= t.1 by {
                assert(sorted@[i] == full[i]);
                assert(full[i].size_bytes >= full[n + j].size_bytes);
            }
        }
    }
    sorted
}

/// Share of the volume already used, in whole percent, for the usage bar.
pub fn usage_percent(d: &DiskInfo) -> (p: u64)
    requires
        d.used_space <= d.total_space,
    ensures
        d.total_space > 0 ==> p == (d.used_space as nat * 100) / d.total_space as nat,
        d.total_space == 0 ==> p == 0,
        p <= 100,
{
    if d.total_space == 0 {
        return 0;
    }
    let q = (d.used_space as u128 * 100) / (d.total_space as u128);
    assert(q <= 100) by {
        vstd::arithmetic::div_mod::lemma_multiply_divide_le(
            d.used_space as int * 100,
            d.total_space as int,
            100,
        );
        assert(d.used_space as int * 100 <= d.total_space as int * 100) by (nonlinear_arith)
            requires d.used_space <= d.total_space;
    }
    q as u64
}

/// The size value (two decimals) and unit label shown for a file:
/// GiB from 1000 MiB up, MiB below.
pub fn display_size(size_bytes: u64) -> (r: (String, String))
    ensures
        size_bytes >= crate::export::GB_THRESHOLD ==> r.0@ == two_dp_digits(
            size_bytes as nat,
            crate::GIB as nat,
        ) && r.1@ == "GB"@,
        size_bytes < crate::export::GB_THRESHOLD ==> r.0@ == two_dp_digits(
            size_bytes as nat,
            crate::MIB as nat,
        ) && r.1@ == "MB"@,
{
    let mut value = String::new();
    if size_bytes >= crate::export::GB_THRESHOLD {
        push_2dp(&mut value, size_bytes, crate::GIB);
        (value, "GB".to_owned())
    } else {
        push_2dp(&mut value, size_bytes, crate::MIB);
        (value, "MB".to_owned())
    }
}

} // verus!

//! The scan aggregator's merge step: one pass over the enumerated
//! volumes, skipping those without positive capacity, collecting and
//! sorting each qualifying volume's files, and failing when nothing
//! qualified.

use vstd::prelude::*;
use crate::collect::{collect, collected, files_view, lemma_map_values_to_multiset, sort_files_desc};
use crate::model::{DiskInfo, VolumeScan, disk_wf};

verus! {

/// A volume takes part in the report exactly when its total capacity is
/// positive; virtual or unavailable filesystems report zero and are
/// skipped without an error.
pub open spec fn qualifies(v: VolumeScan) -> bool {
    v.total_space > 0
}

/// Used capacity derived from total and available bytes, clamped so a
/// report never claims more used than total.
pub open spec fn used_of(v: VolumeScan) -> u64 {
    if v.available_space <= v.total_space {
        (v.total_space - v.available_space) as u64
    } else {
        0
    }
}

/// The volumes a scan reports on, in enumeration order.
pub open spec fn qualifying(vols: Seq<VolumeScan>) -> Seq<VolumeScan> {
    vols.filter(|v: VolumeScan| qualifies(v))
}

/// `d` reports volume `v`: same identity and capacity figures, and the
/// files are exactly the collected regular files of `v`, sorted by
/// descending size.
pub open spec fn reports(d: DiskInfo, v: VolumeScan) -> bool {
    &&& d.name@ == v.name@
    &&& d.total_space == v.total_space
    &&& d.used_space == used_of(v)
    &&& disk_wf(d)
    &&& files_view(d.files@).to_multiset() == collected(v.entries@).to_multiset()
}

/// Merges the per-volume scan results into the report. Every volume with
/// positive total capacity yields one entry, in enumeration order; a scan
/// in which no volume qualified fails with the fixed error message.
pub fn build_report(volumes: Vec<VolumeScan>) -> (res: Result<Vec<DiskInfo>, String>)
    ensures
        res matches Ok(disks) ==> {
            &&& qualifying(volumes@).len() > 0
            &&& disks@.len() == qualifying(volumes@).len()
            &&& forall|i: int|
                0 <= i < disks@.len() ==> reports(#[trigger] disks@[i], qualifying(volumes@)[i])
        },
        res matches Err(m) ==> {
            &&& qualifying(volumes@).len() == 0
            &&& m@ == "Failed to retrieve disk information"@
        },
{
    let mut disks: Vec<DiskInfo> = Vec::new();
    let mut volumes = volumes;
    let ghost all = volumes@;
    let len0 = volumes.len();
    assert(all.len() == len0);
    let mut i: usize = 0;
    proof {
        assert(all.subrange(0, 0) =~= Seq::<VolumeScan>::empty());
        reveal(Seq::filter);
    }
    while volumes.len() > 0
        invariant
            all.len() <= usize::MAX,
            i + volumes@.len() == all.len(),
            volumes@ =~= all.subrange(i as int, all.len() as int),
            disks@.len() == qualifying(all.subrange(0, i as int)).len(),
            forall|k: int|
                0 <= k < disks@.len() ==> reports(
                    #[trigger] disks@[k],
                    qualifying(all.subrange(0, i as int))[k],
                ),
        decreases volumes@.len(),
    {
        let ghost prefix = all.subrange(0, i as int);
        let v = volumes.remove(0);
        assert(v == all[i as int]);
        if v.total_space > 0 {
            let total_space = v.total_space;
            let used_space = if v.available_space <= v.total_space {
                v.total_space - v.available_space
            } else {
                0
            };
            let ghost vsnap = v;
            let VolumeScan { name, entries, .. } = v;
            let mut files = collect(entries);
            let ghost unsorted = files@;
            sort_files_desc(&mut files);
            proof {
                lemma_map_values_to_multiset(files@, unsorted, |f: crate::model::FileInfo| crate::collect::file_view(f));
            }
            let d = DiskInfo { name, total_space, used_space, files };
            assert(reports(d, vsnap));
            disks.push(d);
        }
        proof {
            reveal(Seq::filter);
            let prefix2 = all.subrange(0, i as int + 1);
            assert(prefix2.drop_last() =~= prefix);
            assert(prefix2.last() == all[i as int]);
            if qualifies(all[i as int]) {
                assert(qualifying(prefix2) =~= qualifying(prefix).push(all[i as int]));
            } else {
                assert(qualifying(prefix2) =~= qualifying(prefix));
            }
        }
        i += 1;
    }
    proof {
        assert(all.subrange(0, all.len() as int) =~= all);
    }
    if disks.is_empty() {
        Err("Failed to retrieve disk information".to_owned())
    } else {
        Ok(disks)
    }
}

} // verus!

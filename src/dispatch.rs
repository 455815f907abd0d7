use vstd::prelude::*;

use crate::window::{bin_of, lemma_bin_le_time, WindowSpec};

verus! {

/// The rows of one batch that fall in one bin, as positions in the batch.
pub struct BinRows {
    pub bin: u64,
    pub rows: Vec<usize>,
}

/// The bin of the row at position `i` of a batch.
pub open spec fn row_bin(width: nat, times: Seq<u64>, i: int) -> nat {
    bin_of(width, times[i] as nat)
}

/// Some row of the batch falls in bin `b`.
pub open spec fn occurs(width: nat, times: Seq<u64>, b: nat) -> bool {
    exists|i: int| 0 <= i < times.len() && row_bin(width, times, i) == b
}

/// `groups` splits the rows of `times` by bin: one group per bin that occurs,
/// in increasing bin order, each holding exactly the positions of that bin's
/// rows, in increasing order.
pub open spec fn is_partition(width: nat, times: Seq<u64>, groups: Seq<BinRows>) -> bool {
    &&& forall|j: int, k: int| 0 <= j < k < groups.len() ==> groups[j].bin < groups[k].bin
    &&& forall|j: int| 0 <= j < groups.len() ==> groups[j].rows@.len() > 0
    &&& forall|j: int, a: int, b: int|
        0 <= j < groups.len() && 0 <= a < b < groups[j].rows@.len() ==> groups[j].rows@[a]
            < groups[j].rows@[b]
    &&& forall|j: int, a: int|
        0 <= j < groups.len() && 0 <= a < groups[j].rows@.len() ==> #[trigger] groups[j].rows@[a]
            < times.len() && row_bin(width, times, groups[j].rows@[a] as int) == groups[j].bin
    &&& forall|i: int| 0 <= i < times.len() ==> #[trigger] grouped(width, times, groups, i)
}

/// Row `i` stands in the group of its own bin.
pub open spec fn grouped(width: nat, times: Seq<u64>, groups: Seq<BinRows>, i: int) -> bool {
    exists|j: int|
        0 <= j < groups.len() && groups[j].bin == row_bin(width, times, i)
            && groups[j].rows@.contains(i as usize)
}

/// The distinct bins of the rows, in increasing order.
fn distinct_bins(window: &WindowSpec, times: &Vec<u64>) -> (ids: Vec<u64>)
    requires
        window.wf(),
    ensures
        forall|j: int, k: int| 0 <= j < k < ids@.len() ==> ids@[j] < ids@[k],
        forall|i: int| 0 <= i < times@.len() ==> ids@.contains(row_bin(window.width(), times@, i) as u64),
        forall|k: int| 0 <= k < ids@.len() ==> occurs(window.width(), times@, #[trigger] ids@[k] as nat),
{
    let mut ids: Vec<u64> = Vec::new();
    let mut i: usize = 0;
    while i < times.len()
        invariant
            window.wf(),
            i <= times@.len(),
            forall|j: int, k: int| 0 <= j < k < ids@.len() ==> ids@[j] < ids@[k],
            forall|a: int| 0 <= a < i ==> ids@.contains(row_bin(window.width(), times@, a) as u64),
            forall|k: int| #![trigger ids@[k]] 0 <= k < ids@.len() ==> exists|a: int|
                0 <= a < i && row_bin(window.width(), times@, a) == ids@[k],
        decreases times@.len() - i,
    {
        let b = window.time_to_bin(times[i]);
        let mut p: usize = 0;
        while p < ids.len() && ids[p] < b
            invariant
                p <= ids@.len(),
                forall|j: int| 0 <= j < p ==> ids@[j] < b,
            decreases ids@.len() - p,
        {
            p = p + 1;
        }
        let ghost before = ids@;
        if p < ids.len() && ids[p] == b {
            assert(ids@[p as int] == b);
        } else {
            ids.insert(p, b);
            proof {
                assert forall|j: int, k: int| 0 <= j < k < ids@.len() implies ids@[j] < ids@[k] by {
                    if j < p && k > p {
                        assert(before[j] < before[k - 1]);
                    } else if j == p {
                        assert(before[p as int] >= b);
                        if k - 1 > p {
                            assert(before[p as int] < before[k - 1]);
                        }
                    } else if j > p {
                        assert(before[j - 1] < before[k - 1]);
                    }
                }
                assert forall|a: int| 0 <= a < i implies ids@.contains(
                    row_bin(window.width(), times@, a) as u64,
                ) by {
                    let x = row_bin(window.width(), times@, a) as u64;
                    assert(before.contains(x));
                    let q = choose|q: int| 0 <= q < before.len() && before[q] == x;
                    if q < p {
                        assert(ids@[q] == x);
                    } else {
                        assert(ids@[q + 1] == x);
                    }
                }
                assert forall|k: int| #![trigger ids@[k]] 0 <= k < ids@.len() implies exists|a: int|
                    0 <= a < i + 1 && row_bin(window.width(), times@, a) == ids@[k] by {
                    if k < p {
                        assert(ids@[k] == before[k]);
                    } else if k == p {
                        assert(row_bin(window.width(), times@, i as int) == ids@[k]);
                    } else {
                        assert(ids@[k] == before[k - 1]);
                    }
                }
            }
        }
        proof {
            assert(ids@[p as int] == b);
            assert(ids@.contains(row_bin(window.width(), times@, i as int) as u64));
        }
        i = i + 1;
    }
    proof {
        assert forall|k: int| 0 <= k < ids@.len() implies occurs(
            window.width(),
            times@,
            #[trigger] ids@[k] as nat,
        ) by {
            let a = choose|a: int| 0 <= a < i && row_bin(window.width(), times@, a) == ids@[k];
            assert(0 <= a < times@.len() && row_bin(window.width(), times@, a) == ids@[k] as nat);
        }
    }
    ids
}

/// The positions of the rows that fall in bin `id`, in increasing order.
fn rows_in_bin(window: &WindowSpec, times: &Vec<u64>, id: u64) -> (rows: Vec<usize>)
    requires
        window.wf(),
    ensures
        forall|a: int, b: int| 0 <= a < b < rows@.len() ==> rows@[a] < rows@[b],
        forall|a: int|
            0 <= a < rows@.len() ==> rows@[a] < times@.len() && row_bin(
                window.width(),
                times@,
                rows@[a] as int,
            ) == id,
        forall|i: int|
            0 <= i < times@.len() && row_bin(window.width(), times@, i) == id ==> rows@.contains(
                i as usize,
            ),
{
    let mut rows: Vec<usize> = Vec::new();
    let mut i: usize = 0;
    while i < times.len()
        invariant
            window.wf(),
            i <= times@.len(),
            forall|a: int, b: int| 0 <= a < b < rows@.len() ==> rows@[a] < rows@[b],
            forall|a: int|
                0 <= a < rows@.len() ==> rows@[a] < i && row_bin(
                    window.width(),
                    times@,
                    rows@[a] as int,
                ) == id,
            forall|a: int|
                0 <= a < i && row_bin(window.width(), times@, a) == id ==> rows@.contains(
                    a as usize,
                ),
        decreases times@.len() - i,
    {
        let ghost before = rows@;
        if window.time_to_bin(times[i]) == id {
            rows.push(i);
            proof {
                assert(rows@[rows@.len() - 1] == i);
                assert forall|a: int|
                    0 <= a < i && row_bin(window.width(), times@, a) == id implies rows@.contains(
                    a as usize,
                ) by {
                    assert(before.contains(a as usize));
                    let q = choose|q: int| 0 <= q < before.len() && before[q] == a as usize;
                    assert(rows@[q] == a as usize);
                }
            }
        }
        i = i + 1;
    }
    rows
}

/// Splits the rows of a batch, given by their event times, into one group per
/// bin, in increasing bin order.
pub fn partition_by_bin(window: &WindowSpec, times: &Vec<u64>) -> (groups: Vec<BinRows>)
    requires
        window.wf(),
    ensures
        is_partition(window.width(), times@, groups@),
{
    let ids = distinct_bins(window, times);
    let mut groups: Vec<BinRows> = Vec::new();
    let mut k: usize = 0;
    while k < ids.len()
        invariant
            window.wf(),
            k <= ids@.len(),
            groups@.len() == k,
            forall|j: int, l: int| 0 <= j < l < ids@.len() ==> ids@[j] < ids@[l],
            forall|i: int| 0 <= i < times@.len() ==> ids@.contains(row_bin(window.width(), times@, i) as u64),
            forall|l: int| 0 <= l < ids@.len() ==> occurs(window.width(), times@, #[trigger] ids@[l] as nat),
            forall|j: int| 0 <= j < k ==> groups@[j].bin == ids@[j],
            forall|j: int| 0 <= j < k ==> groups@[j].rows@.len() > 0,
            forall|j: int, a: int, b: int|
                0 <= j < k && 0 <= a < b < groups@[j].rows@.len() ==> groups@[j].rows@[a]
                    < groups@[j].rows@[b],
            forall|j: int, a: int|
                0 <= j < k && 0 <= a < groups@[j].rows@.len() ==> #[trigger] groups@[j].rows@[a]
                    < times@.len() && row_bin(window.width(), times@, groups@[j].rows@[a] as int)
                    == groups@[j].bin,
            forall|j: int, i: int|
                0 <= j < k && 0 <= i < times@.len() && row_bin(window.width(), times@, i)
                    == groups@[j].bin ==> groups@[j].rows@.contains(i as usize),
        decreases ids@.len() - k,
    {
        let id = ids[k];
        let rows = rows_in_bin(window, times, id);
        proof {
            assert(occurs(window.width(), times@, ids@[k as int] as nat));
            let i = choose|i: int|
                0 <= i < times@.len() && row_bin(window.width(), times@, i) == ids@[k as int];
            assert(rows@.contains(i as usize));
        }
        groups.push(BinRows { bin: id, rows });
        k = k + 1;
    }
    proof {
        assert forall|i: int| 0 <= i < times@.len() implies #[trigger] grouped(
            window.width(),
            times@,
            groups@,
            i,
        ) by {
            lemma_bin_le_time(window.width(), times@[i] as nat);
            let x = row_bin(window.width(), times@, i) as u64;
            assert(ids@.contains(x));
            let q = choose|q: int| 0 <= q < ids@.len() && ids@[q] == x;
            assert(groups@[q].bin == row_bin(window.width(), times@, i));
            assert(groups@[q].rows@.contains(i as usize));
        }
        let g = groups@;
        assert forall|j: int, l: int| 0 <= j < l < g.len() implies g[j].bin < g[l].bin by {
            assert(g[j].bin == ids@[j]);
            assert(g[l].bin == ids@[l]);
            assert(ids@[j] < ids@[l]);
        }
    }
    groups
}

} // verus!

use vstd::prelude::*;

use crate::dispatch::{is_partition, occurs, partition_by_bin, row_bin, BinRows};
use crate::registry::{
    active_ids, appended, closed_len, contents, deactivated, fed, views, Bin, BinView, Registry,
};
use crate::window::{bin_of, lemma_bin_le_time, lemma_time_in_own_window, WindowMeta, WindowSpec};

verus! {

/// Why a window operator cannot be built from its configuration.
#[derive(Clone, Copy, Debug, PartialEq, Eq, Structural)]
pub enum ConfigError {
    /// The configured window is not a tumbling window.
    NotTumbling,
    /// The aggregation is not in the final mode that can be split into a
    /// partial and a finish step.
    NotFinalAggregate,
    /// The window width is zero.
    ZeroWidth,
    /// The window width in nanoseconds does not fit in 64 bits.
    WidthOverflow,
}

/// A fatal condition met while the operator runs.
#[derive(Clone, Copy, Debug, PartialEq, Eq, Structural)]
pub enum WindowError {
    /// A row falls in a bin that a watermark has already closed.
    LateRecord { bin: u64 },
}

/// Where the rows of one input batch go.
pub struct Routing {
    /// The rows of the batch, one group per bin, in increasing bin order.
    pub groups: Vec<BinRows>,
    /// For each group, whether its bin needs a new feed channel and partial
    /// aggregation execution before the rows are sent.
    pub start: Vec<bool>,
}

/// The bins that a watermark closes, with the window of each.
pub struct Closing<P> {
    /// The closed bins, in increasing id order.
    pub bins: Vec<Bin<P>>,
    /// The window of each closed bin, at the same position.
    pub windows: Vec<WindowMeta>,
}

/// A bin whose partial aggregation a checkpoint drains.
#[derive(Clone, Copy, Debug, PartialEq, Eq, Structural)]
pub struct CheckpointKey {
    pub bin: u64,
    /// The key of the bin's rows in the state table: its start time.
    pub bin_start: u64,
}

/// The bins of the rows of a batch.
pub open spec fn batch_bins(width: nat, times: Seq<u64>) -> Set<u64> {
    Set::new(|b: u64| occurs(width, times, b as nat))
}

/// The registry contents once every bin in `ids` has been fed.
pub open spec fn fed_set<P>(m: Map<u64, BinView<P>>, ids: Set<u64>) -> Map<u64, BinView<P>> {
    Map::new(
        |k: u64| m.contains_key(k) || ids.contains(k),
        |k: u64|
            if ids.contains(k) {
                BinView {
                    id: k,
                    active: true,
                    finished: if m.contains_key(k) { m[k].finished } else { Seq::empty() },
                }
            } else {
                m[k]
            },
    )
}

/// The rows read back from the state table, with the batches as sequences.
pub open spec fn row_views<P>(rows: Seq<(u64, Vec<P>)>) -> Seq<(u64, Seq<P>)> {
    rows.map_values(|r: (u64, Vec<P>)| (r.0, r.1@))
}

/// The registry contents once stored rows `(bin start, batches)` have been
/// added, in order, each to the bin of its start time.
pub open spec fn restored<P>(width: nat, m: Map<u64, BinView<P>>, rows: Seq<(u64, Seq<P>)>) -> Map<
    u64,
    BinView<P>,
>
    decreases rows.len(),
{
    if rows.len() == 0 {
        m
    } else {
        appended(
            restored(width, m, rows.drop_last()),
            bin_of(width, rows.last().0 as nat) as u64,
            rows.last().1,
        )
    }
}

/// The tumbling-window aggregation operator: the bins that are still open,
/// keyed by id, and the bound below which bins are closed for good.
pub struct TumblingAggregatingWindowFunc<P> {
    pub window: WindowSpec,
    /// Column position of the window struct in emitted rows.
    pub window_index: usize,
    pub bins: Registry<P>,
    /// Every bin below this id has been closed by a watermark.
    pub closed_below: u64,
}

impl<P> TumblingAggregatingWindowFunc<P> {
    pub open spec fn wf(&self) -> bool {
        &&& self.window.wf()
        &&& self.bins.wf()
        &&& forall|i: int|
            0 <= i < self.bins@.len() ==> {
                &&& #[trigger] self.bins@[i].id >= self.closed_below
                &&& self.bins@[i].id * self.window.width() <= u64::MAX
            }
    }

    pub open spec fn width(&self) -> nat {
        self.window.width()
    }

    /// Builds the operator from its configuration: a tumbling window of
    /// `size_micros` microseconds over an aggregation in final mode.
    pub fn from_config(
        size_micros: u64,
        window_index: usize,
        is_tumbling: bool,
        is_final_aggregate: bool,
    ) -> (r: Result<Self, ConfigError>)
        ensures
            !is_tumbling ==> r == Err::<Self, _>(ConfigError::NotTumbling),
            is_tumbling && !is_final_aggregate ==> r == Err::<Self, _>(
                ConfigError::NotFinalAggregate,
            ),
            is_tumbling && is_final_aggregate && size_micros == 0 ==> r == Err::<Self, _>(
                ConfigError::ZeroWidth,
            ),
            is_tumbling && is_final_aggregate && size_micros > 0 && size_micros * 1000
                > u64::MAX ==> r == Err::<Self, _>(ConfigError::WidthOverflow),
            r is Ok <==> is_tumbling && is_final_aggregate && 0 < size_micros && size_micros
                * 1000 <= u64::MAX,
            r matches Ok(f) ==> {
                &&& f.wf()
                &&& f.window.width_nanos == size_micros * 1000
                &&& f.window_index == window_index
                &&& f.bins@.len() == 0
                &&& f.closed_below == 0
            },
    {
        if !is_tumbling {
            return Err(ConfigError::NotTumbling);
        }
        if !is_final_aggregate {
            return Err(ConfigError::NotFinalAggregate);
        }
        if size_micros == 0 {
            return Err(ConfigError::ZeroWidth);
        }
        match size_micros.checked_mul(1000) {
            None => Err(ConfigError::WidthOverflow),
            Some(width_nanos) => match WindowSpec::new(width_nanos) {
                None => Err(ConfigError::ZeroWidth),
                Some(window) => Ok(
                    TumblingAggregatingWindowFunc {
                        window,
                        window_index,
                        bins: Registry::new(),
                        closed_below: 0,
                    },
                ),
            },
        }
    }

    /// The operator's name.
    pub fn name(&self) -> (r: &'static str)
        ensures
            r@ == "tumbling_window"@,
    {
        proof {
            reveal_strlit("tumbling_window");
        }
        "tumbling_window"
    }

    /// The bin of an event time.
    pub fn time_to_bin(&self, time_nanos: u64) -> (r: u64)
        requires
            self.wf(),
        ensures
            r == bin_of(self.width(), time_nanos as nat),
    {
        self.window.time_to_bin(time_nanos)
    }

    /// The first row whose bin is already closed, if any.
    fn find_late(&self, times: &Vec<u64>) -> (r: Option<u64>)
        requires
            self.wf(),
        ensures
            r is None <==> forall|i: int|
                0 <= i < times@.len() ==> #[trigger] row_bin(self.width(), times@, i)
                    >= self.closed_below,
            r matches Some(b) ==> b < self.closed_below && occurs(self.width(), times@, b as nat),
    {
        let mut i: usize = 0;
        while i < times.len()
            invariant
                self.wf(),
                i <= times@.len(),
                forall|a: int|
                    0 <= a < i ==> #[trigger] row_bin(self.width(), times@, a) >= self.closed_below,
            decreases times@.len() - i,
        {
            let b = self.window.time_to_bin(times[i]);
            if b < self.closed_below {
                assert(row_bin(self.width(), times@, i as int) == b);
                return Some(b);
            }
            i = i + 1;
        }
        None
    }

    /// Routes the rows of a batch, given by their event times, to their bins:
    /// each bin that occurs is fed, and is created if it is absent. Fails,
    /// changing nothing, where a row falls in a bin that is already closed.
    pub fn process_batch(&mut self, times: &Vec<u64>) -> (r: Result<Routing, WindowError>)
        requires
            old(self).wf(),
        ensures
            final(self).wf(),
            final(self).window == old(self).window,
            final(self).window_index == old(self).window_index,
            final(self).closed_below == old(self).closed_below,
            r is Ok <==> forall|i: int|
                0 <= i < times@.len() ==> #[trigger] row_bin(old(self).width(), times@, i)
                    >= old(self).closed_below,
            r matches Err(WindowError::LateRecord { bin }) ==> {
                &&& bin < old(self).closed_below
                &&& occurs(old(self).width(), times@, bin as nat)
                &&& final(self).bins@ == old(self).bins@
            },
            r matches Ok(routing) ==> {
                &&& is_partition(old(self).width(), times@, routing.groups@)
                &&& routing.start@.len() == routing.groups@.len()
                &&& forall|j: int|
                    0 <= j < routing.groups@.len() ==> #[trigger] routing.start@[j] == !(contents(
                        old(self).bins@,
                    ).contains_key(routing.groups@[j].bin) && contents(
                        old(self).bins@,
                    )[routing.groups@[j].bin].active)
                &&& contents(final(self).bins@) == fed_set(
                    contents(old(self).bins@),
                    batch_bins(old(self).width(), times@),
                )
            },
    {
        if let Some(bin) = self.find_late(times) {
            return Err(WindowError::LateRecord { bin });
        }
        let groups = partition_by_bin(&self.window, times);
        let ghost m0 = contents(self.bins@);
        let mut start: Vec<bool> = Vec::new();
        let mut k: usize = 0;
        assert(fed_set(m0, Set::<u64>::empty()) =~= m0);
        while k < groups.len()
            invariant
                self.wf(),
                self.closed_below == old(self).closed_below,
                self.window == old(self).window,
                self.window_index == old(self).window_index,
                m0 == contents(old(self).bins@),
                k <= groups@.len(),
                start@.len() == k,
                is_partition(self.width(), times@, groups@),
                forall|i: int|
                    0 <= i < times@.len() ==> #[trigger] row_bin(self.width(), times@, i)
                        >= self.closed_below,
                contents(self.bins@) == fed_set(
                    m0,
                    Set::new(|b: u64| exists|j: int| 0 <= j < k && groups@[j].bin == b),
                ),
                forall|j: int|
                    0 <= j < k ==> #[trigger] start@[j] == !(m0.contains_key(groups@[j].bin)
                        && m0[groups@[j].bin].active),
            decreases groups@.len() - k,
        {
            let b = groups[k].bin;
            let ghost s_before = Set::new(|x: u64| exists|j: int| 0 <= j < k && groups@[j].bin == x);
            let ghost s_after = Set::new(|x: u64| exists|j: int| 0 <= j < k + 1 && groups@[j].bin == x);
            let ghost bins_before = self.bins@;
            proof {
                assert(!s_before.contains(b)) by {
                    if s_before.contains(b) {
                        let j = choose|j: int| 0 <= j < k && groups@[j].bin == b;
                        assert(groups@[j].bin < groups@[k as int].bin);
                    }
                }
                let r0 = groups@[k as int].rows@[0] as int;
                assert(row_bin(self.width(), times@, r0) == b);
                lemma_time_in_own_window(self.width(), times@[r0] as nat);
                assert(b * self.width() <= u64::MAX);
                assert(b >= self.closed_below);
            }
            let started = self.bins.touch(b);
            start.push(started);
            proof {
                assert(s_after =~= s_before.insert(b));
                lemma_fed_set_insert(m0, s_before, b);
                assert forall|i: int| 0 <= i < self.bins@.len() implies {
                    &&& #[trigger] self.bins@[i].id >= self.closed_below
                    &&& self.bins@[i].id * self.window.width() <= u64::MAX
                } by {
                    let id = self.bins@[i].id;
                    crate::registry::lemma_contents_at(self.bins@, i);
                    assert(contents(self.bins@).contains_key(id));
                    if id != b {
                        assert(contents(bins_before).contains_key(id));
                        let q = choose|q: int| 0 <= q < bins_before.len() && bins_before[q].id == id;
                        assert(bins_before[q].id >= self.closed_below);
                    }
                }
            }
            k = k + 1;
        }
        proof {
            let s = Set::new(|b: u64| exists|j: int| 0 <= j < k && groups@[j].bin == b);
            let w = self.width();
            assert forall|b: u64| s.contains(b) <==> batch_bins(w, times@).contains(b) by {
                if s.contains(b) {
                    let j = choose|j: int| 0 <= j < k && groups@[j].bin == b;
                    let r0 = groups@[j].rows@[0] as int;
                    assert(row_bin(w, times@, r0) == b);
                    assert(occurs(w, times@, b as nat));
                }
                if batch_bins(w, times@).contains(b) {
                    assert(occurs(w, times@, b as nat));
                    let i = choose|i: int| 0 <= i < times@.len() && row_bin(w, times@, i) == b;
                    assert(crate::dispatch::grouped(w, times@, groups@, i));
                }
            }
            assert(s =~= batch_bins(w, times@));
        }
        Ok(Routing { groups, start })
    }

    /// Applies a watermark. An idle watermark (`None`) changes nothing. An
    /// event-time watermark `wm` closes, in increasing id order, every bin
    /// whose id is below `wm / width`, that is every bin whose window ends at
    /// or before `wm`, and returns them with their windows.
    pub fn handle_watermark(&mut self, watermark: Option<u64>) -> (r: Closing<P>)
        requires
            old(self).wf(),
        ensures
            final(self).wf(),
            final(self).window == old(self).window,
            final(self).window_index == old(self).window_index,
            r.windows@.len() == r.bins@.len(),
            watermark is None ==> {
                &&& r.bins@.len() == 0
                &&& final(self).bins@ == old(self).bins@
                &&& final(self).closed_below == old(self).closed_below
            },
            watermark matches Some(wm) ==> {
                let c = bin_of(old(self).width(), wm as nat) as u64;
                let k = closed_len(old(self).bins@, c) as int;
                &&& views(r.bins@) == old(self).bins@.take(k)
                &&& final(self).bins@ == old(self).bins@.skip(k)
                &&& final(self).closed_below == if c > old(self).closed_below {
                    c
                } else {
                    old(self).closed_below
                }
            },
            forall|i: int|
                0 <= i < r.windows@.len() ==> {
                    &&& (#[trigger] r.windows@[i]).window_start == r.bins@[i].id * old(self).width()
                    &&& r.windows@[i].window_end == r.windows@[i].window_start + old(self).width()
                    &&& r.windows@[i].timestamp == r.windows@[i].window_end - 1
                    &&& watermark matches Some(wm) && r.windows@[i].window_end <= wm
                },
    {
        match watermark {
            None => Closing { bins: Vec::new(), windows: Vec::new() },
            Some(wm) => {
                let c = self.window.time_to_bin(wm);
                let closed = self.bins.close_below(c);
                if c > self.closed_below {
                    self.closed_below = c;
                }
                proof {
                    let s0 = old(self).bins@;
                    let k = closed_len(s0, c) as int;
                    assert forall|i: int| 0 <= i < self.bins@.len() implies {
                        &&& #[trigger] self.bins@[i].id >= self.closed_below
                        &&& self.bins@[i].id * self.window.width() <= u64::MAX
                    } by {
                        assert(self.bins@[i] == s0[i + k]);
                    }
                }
                let mut windows: Vec<WindowMeta> = Vec::new();
                let mut i: usize = 0;
                while i < closed.len()
                    invariant
                        self.window.wf(),
                        self.window == old(self).window,
                        c == bin_of(self.width(), wm as nat),
                        i <= closed@.len(),
                        windows@.len() == i,
                        forall|j: int| 0 <= j < closed@.len() ==> #[trigger] closed@[j].id < c,
                        forall|j: int|
                            0 <= j < i ==> {
                                &&& (#[trigger] windows@[j]).window_start == closed@[j].id
                                    * self.width()
                                &&& windows@[j].window_end == windows@[j].window_start
                                    + self.width()
                                &&& windows@[j].timestamp == windows@[j].window_end - 1
                                &&& windows@[j].window_end <= wm
                            },
                    decreases closed@.len() - i,
                {
                    let id = closed[i].id;
                    proof {
                        lemma_window_before_watermark(self.width(), wm as nat, id as nat);
                    }
                    match self.window.window_meta(id) {
                        Some(m) => windows.push(m),
                        None => {
                            assert(false);
                        },
                    }
                    i = i + 1;
                }
                Closing { bins: closed, windows }
            },
        }
    }

    /// Starts a checkpoint: removes the live feed of every bin and returns
    /// those bins, in increasing id order, with the start time under which
    /// their drained batches are stored.
    pub fn checkpoint(&mut self) -> (r: Vec<CheckpointKey>)
        requires
            old(self).wf(),
        ensures
            final(self).wf(),
            final(self).window == old(self).window,
            final(self).window_index == old(self).window_index,
            final(self).closed_below == old(self).closed_below,
            final(self).bins@ == deactivated(old(self).bins@),
            r@.len() == active_ids(old(self).bins@).len(),
            forall|i: int|
                0 <= i < r@.len() ==> {
                    &&& (#[trigger] r@[i]).bin == active_ids(old(self).bins@)[i]
                    &&& r@[i].bin_start == r@[i].bin * old(self).width()
                },
            (forall|i: int| 0 <= i < old(self).bins@.len() ==> !old(self).bins@[i].active)
                ==> r@.len() == 0 && final(self).bins@ == old(self).bins@,
    {
        let ghost s0 = self.bins@;
        let keys = self.bins.begin_checkpoint();
        proof {
            lemma_active_ids_are_ids(s0);
        }
        let mut r: Vec<CheckpointKey> = Vec::new();
        let mut i: usize = 0;
        while i < keys.len()
            invariant
                self.window.wf(),
                self.window == old(self).window,
                s0 == old(self).bins@,
                keys@ == active_ids(s0),
                forall|q: int| 0 <= q < s0.len() ==> #[trigger] s0[q].id * self.width() <= u64::MAX,
                forall|k: int|
                    0 <= k < active_ids(s0).len() ==> exists|q: int|
                        0 <= q < s0.len() && s0[q].id == #[trigger] active_ids(s0)[k],
                i <= keys@.len(),
                r@.len() == i,
                forall|j: int|
                    0 <= j < i ==> {
                        &&& (#[trigger] r@[j]).bin == keys@[j]
                        &&& r@[j].bin_start == r@[j].bin * self.width()
                    },
            decreases keys@.len() - i,
        {
            let bin = keys[i];
            proof {
                let q = choose|q: int| 0 <= q < s0.len() && s0[q].id == active_ids(s0)[i as int];
                assert(s0[q].id * self.width() <= u64::MAX);
            }
            match self.window.bin_start(bin) {
                Some(bin_start) => r.push(CheckpointKey { bin, bin_start }),
                None => {
                    assert(false);
                },
            }
            i = i + 1;
        }
        r
    }

    /// Adds the batches drained from the aggregation of bin `bin` to the
    /// bin's finished batches.
    pub fn add_drained(&mut self, bin: u64, batches: Vec<P>)
        requires
            old(self).wf(),
            contents(old(self).bins@).contains_key(bin),
        ensures
            final(self).wf(),
            final(self).window == old(self).window,
            final(self).window_index == old(self).window_index,
            final(self).closed_below == old(self).closed_below,
            contents(final(self).bins@) == appended(contents(old(self).bins@), bin, batches@),
    {
        let ghost s0 = self.bins@;
        self.bins.append_finished(bin, batches);
        proof {
            assert forall|i: int| 0 <= i < self.bins@.len() implies {
                &&& #[trigger] self.bins@[i].id >= self.closed_below
                &&& self.bins@[i].id * self.window.width() <= u64::MAX
            } by {
                let id = self.bins@[i].id;
                crate::registry::lemma_contents_at(self.bins@, i);
                assert(contents(s0).contains_key(id));
                let q = choose|q: int| 0 <= q < s0.len() && s0[q].id == id;
                assert(s0[q].id >= self.closed_below);
            }
        }
    }

    /// Rebuilds the bins from the rows of the state table, `(bin start,
    /// batches)`, adding each row's batches to the bin of its start time; a
    /// bin that was absent comes back without a live feed. Fails, changing
    /// nothing, where a row belongs to a bin that is already closed.
    pub fn restore(&mut self, rows: Vec<(u64, Vec<P>)>) -> (r: Result<(), WindowError>)
        requires
            old(self).wf(),
        ensures
            final(self).wf(),
            final(self).window == old(self).window,
            final(self).window_index == old(self).window_index,
            final(self).closed_below == old(self).closed_below,
            r is Ok <==> forall|i: int|
                0 <= i < rows@.len() ==> bin_of(old(self).width(), #[trigger] rows@[i].0 as nat)
                    >= old(self).closed_below,
            r matches Err(WindowError::LateRecord { bin }) ==> {
                &&& bin < old(self).closed_below
                &&& final(self).bins@ == old(self).bins@
            },
            r is Ok ==> contents(final(self).bins@) == restored(
                old(self).width(),
                contents(old(self).bins@),
                row_views(rows@),
            ),
    {
        let mut i: usize = 0;
        while i < rows.len()
            invariant
                self.wf(),
                i <= rows@.len(),
                forall|a: int|
                    0 <= a < i ==> bin_of(self.width(), #[trigger] rows@[a].0 as nat)
                        >= self.closed_below,
            decreases rows@.len() - i,
        {
            let bin = self.window.time_to_bin(rows[i].0);
            if bin < self.closed_below {
                return Err(WindowError::LateRecord { bin });
            }
            i = i + 1;
        }
        let ghost all = row_views(rows@);
        let ghost m0 = contents(self.bins@);
        let mut rest = rows;
        let ghost mut done: int = 0;
        assert(all.skip(0) =~= all);
        assert(all.take(0) =~= Seq::<(u64, Seq<P>)>::empty());
        while rest.len() > 0
            invariant
                self.wf(),
                self.window == old(self).window,
                self.window_index == old(self).window_index,
                self.closed_below == old(self).closed_below,
                0 <= done <= all.len(),
                all.len() == rows@.len(),
                all == row_views(rows@),
                row_views(rest@) == all.skip(done),
                forall|a: int|
                    0 <= a < rows@.len() ==> bin_of(self.width(), #[trigger] rows@[a].0 as nat)
                        >= self.closed_below,
                contents(self.bins@) == restored(self.width(), m0, all.take(done)),
            decreases rest@.len(),
        {
            let ghost before = rest@;
            proof {
                assert(row_views(before).len() == before.len());
                assert(done < all.len());
                assert(row_views(before)[0] == all.skip(done)[0]);
            }
            let (t, batches) = rest.remove(0);
            proof {
                assert(row_views(before)[0] == all[done]);
                assert(all[done] == (rows@[done].0, rows@[done].1@));
                assert(all[done] == (t, batches@));
                assert(rows@[done].0 == t);
                assert(rest@ == before.subrange(1, before.len() as int));
                assert forall|j: int| 0 <= j < rest@.len() implies row_views(rest@)[j] == all.skip(
                    done + 1,
                )[j] by {
                    assert(rest@[j] == before[j + 1]);
                    assert(row_views(before)[j + 1] == all.skip(done)[j + 1]);
                }
                assert(row_views(rest@) =~= all.skip(done + 1));
            }
            let bin = self.window.time_to_bin(t);
            let ghost s0 = self.bins@;
            self.bins.append_finished(bin, batches);
            proof {
                assert(all.take(done + 1).drop_last() =~= all.take(done));
                assert(all.take(done + 1).last() == all[done]);
                lemma_time_in_own_window(self.width(), t as nat);
                assert forall|q: int| 0 <= q < self.bins@.len() implies {
                    &&& #[trigger] self.bins@[q].id >= self.closed_below
                    &&& self.bins@[q].id * self.window.width() <= u64::MAX
                } by {
                    let id = self.bins@[q].id;
                    crate::registry::lemma_contents_at(self.bins@, q);
                    if id != bin {
                        assert(contents(s0).contains_key(id));
                        let x = choose|x: int| 0 <= x < s0.len() && s0[x].id == id;
                        assert(s0[x].id >= self.closed_below);
                    }
                }
                done = done + 1;
            }
        }
        proof {
            assert(all.take(done) =~= all);
        }
        Ok(())
    }
}

/// A bin below the close bin of a watermark ends at or before it.
proof fn lemma_window_before_watermark(width: nat, wm: nat, id: nat)
    requires
        width > 0,
        id < bin_of(width, wm),
    ensures
        id * width + width <= wm,
{
    lemma_time_in_own_window(width, wm);
    let c = bin_of(width, wm);
    assert((id + 1) * width <= c * width) by (nonlinear_arith)
        requires
            id + 1 <= c,
    ;
    assert((id + 1) * width == id * width + width) by (nonlinear_arith);
}

/// Every id in `active_ids(s)` is the id of a bin of `s`.
proof fn lemma_active_ids_are_ids<P>(s: Seq<BinView<P>>)
    ensures
        forall|k: int|
            0 <= k < active_ids(s).len() ==> exists|q: int|
                0 <= q < s.len() && s[q].id == #[trigger] active_ids(s)[k],
    decreases s.len(),
{
    if s.len() > 0 {
        let t = s.drop_last();
        lemma_active_ids_are_ids(t);
        assert forall|k: int| 0 <= k < active_ids(s).len() implies exists|q: int|
            0 <= q < s.len() && s[q].id == #[trigger] active_ids(s)[k] by {
            if k < active_ids(t).len() {
                assert(active_ids(s)[k] == active_ids(t)[k]);
                let q = choose|q: int| 0 <= q < t.len() && t[q].id == active_ids(t)[k];
                assert(s[q].id == active_ids(s)[k]);
            } else {
                assert(active_ids(s)[k] == s.last().id);
                assert(s[s.len() - 1].id == active_ids(s)[k]);
            }
        }
    }
}

/// Feeding one more bin extends the set of fed bins.
proof fn lemma_fed_set_insert<P>(m: Map<u64, BinView<P>>, s: Set<u64>, b: u64)
    requires
        !s.contains(b),
    ensures
        fed(fed_set(m, s), b) == fed_set(m, s.insert(b)),
        fed_set(m, s).contains_key(b) == m.contains_key(b),
        m.contains_key(b) ==> fed_set(m, s)[b] == m[b],
{
    assert(fed(fed_set(m, s), b) =~= fed_set(m, s.insert(b)));
}

} // verus!

use std::collections::BTreeMap;

use tumbling_window::dispatch::partition_by_bin;
use tumbling_window::operator::{
    CheckpointKey, ConfigError, TumblingAggregatingWindowFunc, WindowError,
};
use tumbling_window::window::{WindowMeta, WindowSpec};

const SEC: u64 = 1_000_000_000;

/// A stand-in for the partial and finish pipelines: the partial aggregate of
/// a bin's rows is their count, and the finish step sums the partials.
struct Harness {
    op: TumblingAggregatingWindowFunc<u64>,
    pending: BTreeMap<u64, u64>,
}

impl Harness {
    fn new(width_secs: u64) -> Harness {
        let op = TumblingAggregatingWindowFunc::from_config(width_secs * 1_000_000, 0, true, true)
            .unwrap();
        Harness { op, pending: BTreeMap::new() }
    }

    fn feed(&mut self, times: &[u64]) -> Result<(), WindowError> {
        let routing = self.op.process_batch(&times.to_vec())?;
        for (g, started) in routing.groups.iter().zip(routing.start.iter()) {
            if *started {
                self.pending.insert(g.bin, 0);
            }
            *self.pending.get_mut(&g.bin).unwrap() += g.rows.len() as u64;
        }
        Ok(())
    }

    fn watermark(&mut self, wm: Option<u64>) -> Vec<(u64, u64, WindowMeta)> {
        let closing = self.op.handle_watermark(wm);
        let mut out = Vec::new();
        for (bin, window) in closing.bins.iter().zip(closing.windows.iter()) {
            let mut partials = bin.finished.clone();
            if bin.active {
                partials.push(self.pending.remove(&bin.id).unwrap());
            }
            out.push((bin.id, partials.iter().sum(), *window));
        }
        out
    }

    fn checkpoint(&mut self) -> Vec<(u64, Vec<u64>)> {
        let keys = self.op.checkpoint();
        let mut stored = Vec::new();
        for k in keys {
            let drained = vec![self.pending.remove(&k.bin).unwrap()];
            self.op.add_drained(k.bin, drained.clone());
            stored.push((k.bin_start, drained));
        }
        stored
    }

    fn bins(&self) -> Vec<(u64, bool, Vec<u64>)> {
        (0..self.op.bins.len())
            .map(|i| {
                let b = self.op.bins.bin_at(i);
                (b.id, b.active, b.finished.clone())
            })
            .collect()
    }
}

#[test]
fn watermark_closes_first_bin_only() {
    let mut h = Harness::new(60);
    h.feed(&[5 * SEC, 50 * SEC, 65 * SEC]).unwrap();
    let out = h.watermark(Some(61 * SEC));
    assert_eq!(out.len(), 1);
    assert_eq!(out[0].0, 0);
    assert_eq!(out[0].1, 2);
    assert_eq!(
        out[0].2,
        WindowMeta { window_start: 0, window_end: 60 * SEC, timestamp: 60 * SEC - 1 }
    );
    assert_eq!(h.bins(), vec![(1, true, vec![])]);
}

#[test]
fn checkpoint_restart_matches_uninterrupted_run() {
    let mut plain = Harness::new(60);
    plain.feed(&[5 * SEC, 50 * SEC, 65 * SEC]).unwrap();
    let expected = plain.watermark(Some(61 * SEC));

    let mut h = Harness::new(60);
    h.feed(&[5 * SEC, 50 * SEC, 65 * SEC]).unwrap();
    let stored = h.checkpoint();
    assert_eq!(stored, vec![(0, vec![2]), (60 * SEC, vec![1])]);

    let mut restarted = Harness::new(60);
    restarted.op.restore(stored).unwrap();
    assert_eq!(restarted.bins(), vec![(0, false, vec![2]), (1, false, vec![1])]);
    let out = restarted.watermark(Some(61 * SEC));
    assert_eq!(out, expected);
    assert_eq!(out[0].1, 2);
}

#[test]
fn new_input_after_checkpoint_joins_the_same_bin() {
    let mut h = Harness::new(60);
    h.feed(&[5 * SEC, 50 * SEC]).unwrap();
    h.checkpoint();
    h.feed(&[20 * SEC]).unwrap();
    assert_eq!(h.bins(), vec![(0, true, vec![2])]);
    let out = h.watermark(Some(60 * SEC));
    assert_eq!(out.len(), 1);
    assert_eq!(out[0].1, 3);
}

#[test]
fn checkpoint_without_active_bins_changes_nothing() {
    let mut h = Harness::new(60);
    assert!(h.op.checkpoint().is_empty());
    h.feed(&[5 * SEC, 65 * SEC]).unwrap();
    h.checkpoint();
    let before = h.bins();
    let keys: Vec<CheckpointKey> = h.op.checkpoint();
    assert!(keys.is_empty());
    assert_eq!(h.bins(), before);
}

#[test]
fn feeding_order_does_not_matter() {
    let mut a = Harness::new(60);
    a.feed(&[5 * SEC, 65 * SEC]).unwrap();
    a.feed(&[50 * SEC]).unwrap();
    let mut b = Harness::new(60);
    b.feed(&[50 * SEC]).unwrap();
    b.feed(&[65 * SEC, 5 * SEC]).unwrap();
    let mut c = Harness::new(60);
    c.feed(&[50 * SEC, 65 * SEC, 5 * SEC]).unwrap();
    assert_eq!(a.bins(), b.bins());
    assert_eq!(a.bins(), c.bins());
    assert_eq!(a.watermark(Some(200 * SEC)), b.watermark(Some(200 * SEC)));
}

#[test]
fn later_watermark_closes_the_rest_once() {
    let mut h = Harness::new(60);
    h.feed(&[5 * SEC, 65 * SEC, 130 * SEC]).unwrap();
    let first = h.watermark(Some(61 * SEC));
    assert_eq!(first.iter().map(|o| o.0).collect::<Vec<_>>(), vec![0]);
    let second = h.watermark(Some(190 * SEC));
    assert_eq!(second.iter().map(|o| o.0).collect::<Vec<_>>(), vec![1, 2]);
    assert!(h.watermark(Some(500 * SEC)).is_empty());
    assert_eq!(h.op.closed_below, 8);
}

#[test]
fn bin_stays_open_until_its_end() {
    let mut h = Harness::new(60);
    h.feed(&[5 * SEC]).unwrap();
    assert!(h.watermark(Some(60 * SEC - 1)).is_empty());
    assert_eq!(h.bins().len(), 1);
    let out = h.watermark(Some(60 * SEC));
    assert_eq!(out.len(), 1);
    assert!(out[0].2.window_end <= 60 * SEC);
}

#[test]
fn idle_watermark_closes_nothing() {
    let mut h = Harness::new(60);
    h.feed(&[5 * SEC]).unwrap();
    assert!(h.watermark(None).is_empty());
    assert_eq!(h.op.closed_below, 0);
    assert_eq!(h.bins().len(), 1);
}

#[test]
fn window_metadata_of_an_event_time() {
    let w = WindowSpec::new(60 * SEC).unwrap();
    let t = 125 * SEC;
    let b = w.time_to_bin(t);
    assert_eq!(b, 2);
    let m = w.window_meta(b).unwrap();
    assert_eq!(m.window_start, 120 * SEC);
    assert_eq!(m.window_end, 180 * SEC);
    assert_eq!(m.timestamp, 180 * SEC - 1);
    assert!(m.window_start <= t && t < m.window_end);
    assert_eq!(w.bin_start(b), Some(120 * SEC));
}

#[test]
fn window_metadata_overflow() {
    let w = WindowSpec::new(10).unwrap();
    assert_eq!(w.window_meta(u64::MAX / 10), None);
    assert_eq!(w.bin_start(u64::MAX), None);
    assert!(WindowSpec::new(0).is_none());
}

#[test]
fn partition_groups_rows_by_bin() {
    let w = WindowSpec::new(60 * SEC).unwrap();
    let times = vec![65 * SEC, 5 * SEC, 130 * SEC, 50 * SEC];
    let groups = partition_by_bin(&w, &times);
    let got: Vec<(u64, Vec<usize>)> = groups.iter().map(|g| (g.bin, g.rows.clone())).collect();
    assert_eq!(got, vec![(0, vec![1, 3]), (1, vec![0]), (2, vec![2])]);
    assert!(partition_by_bin(&w, &vec![]).is_empty());
}

#[test]
fn start_flags_follow_live_feeds() {
    let mut op = TumblingAggregatingWindowFunc::<u64>::from_config(60_000_000, 2, true, true)
        .unwrap();
    assert_eq!(op.window_index, 2);
    let r = op.process_batch(&vec![5 * SEC, 65 * SEC]).unwrap();
    assert_eq!(r.start, vec![true, true]);
    let r = op.process_batch(&vec![6 * SEC, 125 * SEC]).unwrap();
    assert_eq!(r.start, vec![false, true]);
    op.checkpoint();
    let r = op.process_batch(&vec![7 * SEC]).unwrap();
    assert_eq!(r.start, vec![true]);
}

#[test]
fn late_record_is_refused() {
    let mut h = Harness::new(60);
    h.feed(&[5 * SEC, 65 * SEC]).unwrap();
    h.watermark(Some(61 * SEC));
    let before = h.bins();
    assert_eq!(h.feed(&[70 * SEC, 30 * SEC]), Err(WindowError::LateRecord { bin: 0 }));
    assert_eq!(h.bins(), before);
    assert_eq!(
        h.op.restore(vec![(0, vec![4])]),
        Err(WindowError::LateRecord { bin: 0 })
    );
    assert_eq!(h.bins(), before);
}

#[test]
fn config_errors() {
    type F = TumblingAggregatingWindowFunc<u64>;
    assert_eq!(F::from_config(60, 0, false, true).err(), Some(ConfigError::NotTumbling));
    assert_eq!(F::from_config(60, 0, true, false).err(), Some(ConfigError::NotFinalAggregate));
    assert_eq!(F::from_config(0, 0, true, true).err(), Some(ConfigError::ZeroWidth));
    assert_eq!(F::from_config(u64::MAX, 0, true, true).err(), Some(ConfigError::WidthOverflow));
    let f = F::from_config(60, 0, true, true).unwrap();
    assert_eq!(f.window.width_nanos, 60_000);
    assert_eq!(f.time_to_bin(120_000), 2);
}

#[test]
fn restore_merges_rows_of_one_bin() {
    let mut h = Harness::new(60);
    h.op.restore(vec![(60 * SEC, vec![1]), (0, vec![2]), (60 * SEC, vec![3, 4])]).unwrap();
    assert_eq!(h.bins(), vec![(0, false, vec![2]), (1, false, vec![1, 3, 4])]);
}

#[test]
fn operator_name() {
    let f = TumblingAggregatingWindowFunc::<u64>::from_config(60, 0, true, true).unwrap();
    assert_eq!(f.name(), "tumbling_window");
}

use vstd::prelude::*;

use crate::dispatch::{occurs, row_bin};
use crate::operator::{batch_bins, fed_set, restored};
use crate::registry::{closed_len, contents, ids_increasing, lemma_contents_at, BinView};
use crate::window::bin_of;

verus! {

/// Routing is independent of arrival order: feeding batch `a` then batch `b`,
/// feeding `b` then `a`, or feeding them as one batch leaves the registry
/// with the same bins in the same states.
pub proof fn lemma_feed_order_irrelevant<P>(
    m: Map<u64, BinView<P>>,
    width: nat,
    a: Seq<u64>,
    b: Seq<u64>,
)
    ensures
        fed_set(fed_set(m, batch_bins(width, a)), batch_bins(width, b)) == fed_set(
            fed_set(m, batch_bins(width, b)),
            batch_bins(width, a),
        ),
        fed_set(fed_set(m, batch_bins(width, a)), batch_bins(width, b)) == fed_set(
            m,
            batch_bins(width, a + b),
        ),
{
    let ab = a + b;
    assert forall|x: u64| batch_bins(width, ab).contains(x) <==> batch_bins(width, a).contains(x)
        || batch_bins(width, b).contains(x) by {
        if occurs(width, ab, x as nat) {
            let i = choose|i: int| 0 <= i < ab.len() && row_bin(width, ab, i) == x as nat;
            if i < a.len() {
                assert(row_bin(width, a, i) == x as nat);
            } else {
                assert(row_bin(width, b, i - a.len()) == x as nat);
            }
        }
        if occurs(width, a, x as nat) {
            let i = choose|i: int| 0 <= i < a.len() && row_bin(width, a, i) == x as nat;
            assert(row_bin(width, ab, i) == x as nat);
        }
        if occurs(width, b, x as nat) {
            let i = choose|i: int| 0 <= i < b.len() && row_bin(width, b, i) == x as nat;
            assert(row_bin(width, ab, i + a.len()) == x as nat);
        }
    }
    let sa = batch_bins(width, a);
    let sb = batch_bins(width, b);
    assert(fed_set(fed_set(m, sa), sb) =~= fed_set(fed_set(m, sb), sa));
    assert(fed_set(fed_set(m, sa), sb) =~= fed_set(m, batch_bins(width, ab)));
}

proof fn lemma_closed_len_split<P>(s: Seq<BinView<P>>, c1: u64, c2: u64)
    requires
        c1 <= c2,
    ensures
        closed_len(s, c1) <= closed_len(s, c2),
        closed_len(s, c2) <= s.len(),
        closed_len(s, c1) + closed_len(s.skip(closed_len(s, c1) as int), c2) == closed_len(s, c2),
    decreases s.len(),
{
    if s.len() > 0 {
        lemma_closed_len_split(s.drop_first(), c1, c2);
        if s[0].id < c1 {
            let k = closed_len(s.drop_first(), c1) as int;
            assert(s.skip(k + 1) =~= s.drop_first().skip(k));
        } else {
            assert(s.skip(0) =~= s);
        }
    } else {
        assert(s.skip(0) =~= s);
    }
}

/// Watermarks close bins in order and once: for `wm1 <= wm2`, the bins that
/// `wm1` closes are a prefix of those that `wm2` closes, and applying `wm2`
/// to what `wm1` left closes exactly the rest, none of which `wm1` closed.
pub proof fn lemma_watermarks_close_prefix<P>(s: Seq<BinView<P>>, width: nat, wm1: u64, wm2: u64)
    requires
        ids_increasing(s),
        width > 0,
        wm1 <= wm2,
    ensures
        ({
            let c1 = bin_of(width, wm1 as nat) as u64;
            let c2 = bin_of(width, wm2 as nat) as u64;
            let k1 = closed_len(s, c1) as int;
            let k2 = closed_len(s, c2) as int;
            &&& k1 <= k2 <= s.len()
            &&& s.take(k2).take(k1) == s.take(k1)
            &&& s.take(k1) + s.skip(k1).take(closed_len(s.skip(k1), c2) as int) == s.take(k2)
            &&& forall|i: int, j: int| 0 <= i < k1 <= j < s.len() ==> s[i].id != s[j].id
        }),
{
    vstd::arithmetic::div_mod::lemma_div_is_ordered(wm1 as int, wm2 as int, width as int);
    crate::window::lemma_bin_le_time(width, wm1 as nat);
    crate::window::lemma_bin_le_time(width, wm2 as nat);
    let c1 = bin_of(width, wm1 as nat) as u64;
    let c2 = bin_of(width, wm2 as nat) as u64;
    lemma_closed_len_split(s, c1, c2);
    let k1 = closed_len(s, c1) as int;
    let k2 = closed_len(s, c2) as int;
    assert(s.take(k2).take(k1) =~= s.take(k1));
    assert(s.take(k1) + s.skip(k1).take(k2 - k1) =~= s.take(k2));
    assert forall|i: int, j: int| 0 <= i < k1 <= j < s.len() implies s[i].id != s[j].id by {
        assert(s[i].id < s[j].id);
    }
}

/// The rows that a checkpoint leaves in the state table for bins `s`: one
/// per bin, keyed by the bin's start time, holding its drained batches.
pub open spec fn stored_rows<P>(width: nat, s: Seq<BinView<P>>) -> Seq<(u64, Seq<P>)> {
    s.map_values(|b: BinView<P>| ((b.id * width) as u64, b.finished))
}

/// A restart rebuilds what a checkpoint flushed: restoring, into an empty
/// registry, the stored rows of bins without a live feed (the state right
/// after a checkpoint) gives back the same bins with the same batches.
pub proof fn lemma_restart_round_trip<P>(width: nat, s: Seq<BinView<P>>)
    requires
        width > 0,
        ids_increasing(s),
        forall|i: int| 0 <= i < s.len() ==> !(#[trigger] s[i]).active,
        forall|i: int| 0 <= i < s.len() ==> (#[trigger] s[i]).id * width <= u64::MAX,
    ensures
        restored(width, Map::empty(), stored_rows(width, s)) == contents(s),
    decreases s.len(),
{
    if s.len() == 0 {
        assert(contents(s) =~= Map::<u64, BinView<P>>::empty());
    } else {
        let t = s.drop_last();
        let x = s.last();
        lemma_restart_round_trip(width, t);
        assert(stored_rows(width, s).drop_last() =~= stored_rows(width, t));
        let n = s.len() - 1;
        assert(s[n] == x);
        assert(x.id * width <= u64::MAX);
        assert(((x.id as nat) * width) / width == x.id as nat) by {
            vstd::arithmetic::div_mod::lemma_div_by_multiple(x.id as int, width as int);
        }
        assert(stored_rows(width, s).last() == ((x.id * width) as u64, x.finished));
        assert(!contents(t).contains_key(x.id)) by {
            if contents(t).contains_key(x.id) {
                let q = choose|q: int| 0 <= q < t.len() && t[q].id == x.id;
                assert(s[q].id < s[n].id);
            }
        }
        assert(contents(s) =~= contents(t).insert(x.id, x)) by {
            assert forall|k: u64| #![auto]
                contents(s).contains_key(k) == contents(t).insert(x.id, x).contains_key(k) by {
                if contents(s).contains_key(k) && k != x.id {
                    let q = choose|q: int| 0 <= q < s.len() && s[q].id == k;
                    assert(t[q].id == k);
                }
                if contents(t).contains_key(k) {
                    let q = choose|q: int| 0 <= q < t.len() && t[q].id == k;
                    assert(s[q].id == k);
                }
                if k == x.id {
                    assert(s[n].id == k);
                }
            }
            assert forall|k: u64| #![auto] contents(s).contains_key(k) implies contents(s)[k]
                == contents(t).insert(x.id, x)[k] by {
                let q = choose|q: int| 0 <= q < s.len() && s[q].id == k;
                lemma_contents_at(s, q);
                if q < n {
                    lemma_contents_at(t, q);
                }
            }
        }
        assert(x == BinView { id: x.id, active: false, finished: x.finished });
        assert(restored(width, Map::empty(), stored_rows(width, s)) =~= contents(s));
    }
}

} // verus!

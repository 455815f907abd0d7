use vstd::prelude::*;

verus! {

/// One bin of the registry, as the library stores it.
pub struct Bin<P> {
    pub id: u64,
    /// A feed channel and a partial-aggregation execution are live for this bin.
    pub active: bool,
    /// Partial-aggregate batches drained so far, waiting for the finish step.
    pub finished: Vec<P>,
}

/// The mathematical value of a [`Bin`].
pub struct BinView<P> {
    pub id: u64,
    pub active: bool,
    pub finished: Seq<P>,
}

impl<P> Bin<P> {
    pub open spec fn view(&self) -> BinView<P> {
        BinView { id: self.id, active: self.active, finished: self.finished@ }
    }
}

/// Bin ids strictly increase along the sequence.
pub open spec fn ids_increasing<P>(s: Seq<BinView<P>>) -> bool {
    forall|i: int, j: int| 0 <= i < j < s.len() ==> s[i].id < s[j].id
}

/// The bins of a sequence, keyed by id.
pub open spec fn contents<P>(s: Seq<BinView<P>>) -> Map<u64, BinView<P>> {
    Map::new(
        |k: u64| exists|i: int| 0 <= i < s.len() && s[i].id == k,
        |k: u64| s[choose|i: int| 0 <= i < s.len() && s[i].id == k],
    )
}

/// The state of bin `id` once it has been fed: active, with the batches it
/// had before.
pub open spec fn fed<P>(m: Map<u64, BinView<P>>, id: u64) -> Map<u64, BinView<P>> {
    m.insert(
        id,
        BinView {
            id,
            active: true,
            finished: if m.contains_key(id) { m[id].finished } else { Seq::empty() },
        },
    )
}

/// The state of bin `id` once `batches` have been added to its finished
/// batches; a bin that was absent is created without a live feed.
pub open spec fn appended<P>(m: Map<u64, BinView<P>>, id: u64, batches: Seq<P>) -> Map<
    u64,
    BinView<P>,
> {
    m.insert(
        id,
        BinView {
            id,
            active: m.contains_key(id) && m[id].active,
            finished: if m.contains_key(id) { m[id].finished + batches } else { batches },
        },
    )
}

/// How many bins at the front of the sequence have an id below `close`.
pub open spec fn closed_len<P>(s: Seq<BinView<P>>, close: u64) -> nat
    decreases s.len(),
{
    if s.len() > 0 && s[0].id < close {
        1 + closed_len(s.drop_first(), close)
    } else {
        0
    }
}

/// The ids of the bins with a live feed, in order.
pub open spec fn active_ids<P>(s: Seq<BinView<P>>) -> Seq<u64>
    decreases s.len(),
{
    if s.len() == 0 {
        Seq::empty()
    } else {
        active_ids(s.drop_last()) + if s.last().active {
            seq![s.last().id]
        } else {
            Seq::empty()
        }
    }
}

/// The same bins with every live feed removed.
pub open spec fn deactivated<P>(s: Seq<BinView<P>>) -> Seq<BinView<P>> {
    s.map_values(|b: BinView<P>| BinView { id: b.id, active: false, finished: b.finished })
}

/// The views of a sequence of bins.
pub open spec fn views<P>(bins: Seq<Bin<P>>) -> Seq<BinView<P>> {
    bins.map_values(|b: Bin<P>| b.view())
}

pub proof fn lemma_contents_at<P>(s: Seq<BinView<P>>, j: int)
    requires
        ids_increasing(s),
        0 <= j < s.len(),
    ensures
        contents(s).contains_key(s[j].id),
        contents(s)[s[j].id] == s[j],
{
    let k = s[j].id;
    assert(0 <= j < s.len() && s[j].id == k);
    assert(exists|i: int| 0 <= i < s.len() && s[i].id == k);
    let i = choose|i: int| 0 <= i < s.len() && s[i].id == k;
    assert(i == j);
}

/// The bin registry: the unfinalized bins, ordered by id.
pub struct Registry<P> {
    bins: Vec<Bin<P>>,
}

impl<P> View for Registry<P> {
    type V = Seq<BinView<P>>;

    closed spec fn view(&self) -> Seq<BinView<P>> {
        views(self.bins@)
    }
}

impl<P> Registry<P> {
    pub open spec fn wf(&self) -> bool {
        ids_increasing(self@)
    }

    /// An empty registry.
    pub fn new() -> (r: Registry<P>)
        ensures
            r.wf(),
            r@ == Seq::<BinView<P>>::empty(),
    {
        let r = Registry { bins: Vec::new() };
        assert(r@ =~= Seq::<BinView<P>>::empty());
        r
    }

    pub fn len(&self) -> (r: usize)
        ensures
            r == self@.len(),
    {
        self.bins.len()
    }

    pub fn is_empty(&self) -> (r: bool)
        ensures
            r <==> self@.len() == 0,
    {
        self.bins.len() == 0
    }

    /// The bin at a position, counted from the smallest id.
    pub fn bin_at(&self, i: usize) -> (r: &Bin<P>)
        requires
            i < self@.len(),
        ensures
            r.view() == self@[i as int],
    {
        &self.bins[i]
    }

    /// The first position whose id is not below `id`.
    fn position(&self, id: u64) -> (r: usize)
        requires
            self.wf(),
        ensures
            r <= self@.len(),
            forall|j: int| 0 <= j < r ==> self@[j].id < id,
            forall|j: int| r <= j < self@.len() ==> self@[j].id >= id,
    {
        let mut i: usize = 0;
        while i < self.bins.len() && self.bins[i].id < id
            invariant
                self.wf(),
                i <= self@.len(),
                forall|j: int| 0 <= j < i ==> self@[j].id < id,
            decreases self@.len() - i,
        {
            i = i + 1;
        }
        proof {
            if i < self@.len() {
                assert forall|j: int| i <= j < self@.len() implies self@[j].id >= id by {
                    if j > i {
                        assert(self@[i as int].id < self@[j].id);
                    }
                }
            }
        }
        i
    }

    /// Puts `b` where the bin of its id stands, or inserts it in id order.
    fn put(&mut self, b: Bin<P>)
        requires
            old(self).wf(),
        ensures
            final(self).wf(),
            contents(final(self)@) == contents(old(self)@).insert(b.id, b.view()),
    {
        let ghost s0 = self@;
        let ghost x = b.view();
        let p = self.position(b.id);
        if p < self.bins.len() && self.bins[p].id == b.id {
            self.bins.remove(p);
            self.bins.insert(p, b);
            proof {
                assert(self@ =~= s0.update(p as int, x));
                lemma_update_contents(s0, p as int, x);
            }
        } else {
            self.bins.insert(p, b);
            proof {
                assert(self@ =~= s0.insert(p as int, x));
                lemma_insert_contents(s0, p as int, x);
            }
        }
    }

    /// Takes the batches of bin `id` out of the registry, leaving the bin in
    /// place with none; makes a fresh bin (no live feed, no batches) where it
    /// is absent.
    fn take_bin(&mut self, id: u64) -> (b: Bin<P>)
        requires
            old(self).wf(),
        ensures
            final(self).wf(),
            b.id == id,
            contents(old(self)@).contains_key(id) ==> b.view() == contents(old(self)@)[id]
                && contents(final(self)@) == contents(old(self)@).insert(
                id,
                BinView { id, active: b.active, finished: Seq::empty() },
            ),
            !contents(old(self)@).contains_key(id) ==> !b.active && b.finished@.len() == 0
                && contents(final(self)@) == contents(old(self)@),
    {
        let ghost s0 = self@;
        let p = self.position(id);
        if p < self.bins.len() && self.bins[p].id == id {
            proof {
                lemma_contents_at(s0, p as int);
            }
            let b = self.bins.remove(p);
            self.bins.insert(p, Bin { id, active: b.active, finished: Vec::new() });
            proof {
                let x = BinView { id, active: b.active, finished: Seq::<P>::empty() };
                assert(self@ =~= s0.update(p as int, x));
                lemma_update_contents(s0, p as int, x);
            }
            b
        } else {
            proof {
                lemma_absent(s0, p as int, id);
            }
            Bin { id, active: false, finished: Vec::new() }
        }
    }

    /// Removes, in id order, every bin whose id is below `close`.
    pub fn close_below(&mut self, close: u64) -> (closed: Vec<Bin<P>>)
        requires
            old(self).wf(),
        ensures
            final(self).wf(),
            closed_len(old(self)@, close) <= old(self)@.len(),
            views(closed@) == old(self)@.take(closed_len(old(self)@, close) as int),
            final(self)@ == old(self)@.skip(closed_len(old(self)@, close) as int),
            forall|i: int| 0 <= i < closed@.len() ==> closed@[i].id < close,
            forall|i: int| 0 <= i < final(self)@.len() ==> final(self)@[i].id >= close,
    {
        let ghost s0 = self@;
        let mut closed: Vec<Bin<P>> = Vec::new();
        assert(s0.skip(0) =~= s0);
        assert(views(closed@) =~= s0.take(0));
        while self.bins.len() > 0 && self.bins[0].id < close
            invariant
                closed@.len() <= s0.len(),
                self@ == s0.skip(closed@.len() as int),
                views(closed@) == s0.take(closed@.len() as int),
                closed_len(s0, close) == closed@.len() + closed_len(
                    s0.skip(closed@.len() as int),
                    close,
                ),
                ids_increasing(s0),
                forall|i: int| 0 <= i < closed@.len() ==> closed@[i].id < close,
            decreases self@.len(),
        {
            let ghost i = closed@.len() as int;
            let b = self.bins.remove(0);
            proof {
                assert(s0.skip(i).drop_first() =~= s0.skip(i + 1));
                assert(b.view() == s0[i]);
            }
            closed.push(b);
            proof {
                assert(self@ =~= s0.skip(i + 1));
                assert(views(closed@) =~= s0.take(i + 1));
            }
        }
        proof {
            let k = closed@.len() as int;
            assert forall|j: int| 0 <= j < self@.len() implies self@[j].id >= close by {
                assert(self@[0].id >= close);
                if j > 0 {
                    assert(s0[k].id < s0[k + j].id);
                }
            }
        }
        closed
    }

    /// Removes the live feed of every bin and returns their ids, in order:
    /// the bins whose aggregation a checkpoint must drain.
    pub fn begin_checkpoint(&mut self) -> (keys: Vec<u64>)
        requires
            old(self).wf(),
        ensures
            final(self).wf(),
            keys@ == active_ids(old(self)@),
            final(self)@ == deactivated(old(self)@),
            (forall|i: int| 0 <= i < old(self)@.len() ==> !old(self)@[i].active) ==> keys@.len()
                == 0 && final(self)@ == old(self)@,
    {
        let ghost s0 = self@;
        let mut keys: Vec<u64> = Vec::new();
        let mut i: usize = 0;
        while i < self.bins.len()
            invariant
                i <= self@.len(),
                self@.len() == s0.len(),
                self@ == deactivated(s0.take(i as int)) + s0.skip(i as int),
                keys@ == active_ids(s0.take(i as int)),
            decreases self@.len() - i,
        {
            let ghost before = self.bins@;
            let ghost v0 = self@;
            proof {
                assert(s0.take(i as int + 1).drop_last() =~= s0.take(i as int));
                assert(s0.take(i as int + 1).last() == s0[i as int]);
                assert(self@[i as int] == s0[i as int]);
                assert(before[i as int].view() == s0[i as int]);
            }
            if self.bins[i].active {
                keys.push(self.bins[i].id);
                let b = self.bins.remove(i);
                self.bins.insert(i, Bin { id: b.id, active: false, finished: b.finished });
                proof {
                    assert(self.bins@ =~= before.update(
                        i as int,
                        Bin { id: b.id, active: false, finished: b.finished },
                    ));
                }
            }
            proof {
                let t = deactivated(s0.take(i as int + 1)) + s0.skip(i as int + 1);
                assert forall|j: int| 0 <= j < self@.len() implies self@[j] == t[j] by {
                    if j != i {
                        assert(self.bins@[j] == before[j]);
                        assert(self@[j] == v0[j]);
                    }
                    if j < i {
                        assert(v0[j] == deactivated(s0.take(i as int))[j]);
                    } else if j == i {
                        assert(t[j] == BinView { id: s0[j].id, active: false, finished: s0[j].finished });
                    } else {
                        assert(v0[j] == s0.skip(i as int)[j - i]);
                    }
                }
                assert(self@ =~= t);
            }
            i = i + 1;
        }
        proof {
            assert(s0.take(i as int) =~= s0);
            assert(self@ =~= deactivated(s0));
            if forall|i: int| 0 <= i < s0.len() ==> !s0[i].active {
                lemma_no_active(s0);
                assert(deactivated(s0) =~= s0);
            }
        }
        keys
    }

    /// Marks bin `id` as fed, creating it if it is absent. Returns whether a
    /// new feed channel and aggregation execution must be started for it, that
    /// is whether it had no live one.
    pub fn touch(&mut self, id: u64) -> (started: bool)
        requires
            old(self).wf(),
        ensures
            final(self).wf(),
            contents(final(self)@) == fed(contents(old(self)@), id),
            started == !(contents(old(self)@).contains_key(id) && contents(
                old(self)@,
            )[id].active),
    {
        let ghost m0 = contents(self@);
        let mut b = self.take_bin(id);
        let ghost m1 = contents(self@);
        let started = !b.active;
        b.active = true;
        self.put(b);
        proof {
            if m0.contains_key(id) {
                let x = BinView { id, active: true, finished: m0[id].finished };
                assert(b.view() == x);
                assert(contents(self@) == m1.insert(id, x));
                assert(fed(m0, id) == m0.insert(id, x));
                assert(contents(self@) =~= fed(m0, id));
            } else {
                assert(m1 == m0);
                assert(b.finished@ =~= Seq::<P>::empty());
                assert(b.view() == BinView { id, active: true, finished: Seq::<P>::empty() });
                assert(contents(self@) == m0.insert(id, b.view()));
                assert(contents(self@) =~= fed(m0, id));
            }
        }
        started
    }

    /// Adds drained partial-aggregate batches to bin `id`, creating the bin
    /// without a live feed where it is absent.
    pub fn append_finished(&mut self, id: u64, batches: Vec<P>)
        requires
            old(self).wf(),
        ensures
            final(self).wf(),
            contents(final(self)@) == appended(contents(old(self)@), id, batches@),
    {
        let ghost m0 = contents(self@);
        let ghost added = batches@;
        let mut b = self.take_bin(id);
        let ghost m1 = contents(self@);
        let mut batches = batches;
        b.finished.append(&mut batches);
        self.put(b);
        proof {
            if m0.contains_key(id) {
                assert(contents(self@) == m1.insert(id, b.view()));
                assert(contents(self@) =~= appended(m0, id, added));
            } else {
                assert(b.finished@ =~= added);
                assert(contents(self@) =~= appended(m0, id, added));
            }
        }
    }
}

proof fn lemma_no_active<P>(s: Seq<BinView<P>>)
    requires
        forall|i: int| 0 <= i < s.len() ==> !s[i].active,
    ensures
        active_ids(s).len() == 0,
    decreases s.len(),
{
    if s.len() > 0 {
        lemma_no_active(s.drop_last());
    }
}

proof fn lemma_absent<P>(s: Seq<BinView<P>>, p: int, id: u64)
    requires
        ids_increasing(s),
        0 <= p <= s.len(),
        forall|j: int| 0 <= j < p ==> s[j].id < id,
        forall|j: int| p <= j < s.len() ==> s[j].id >= id,
        !(p < s.len() && s[p].id == id),
    ensures
        !contents(s).contains_key(id),
{
    if contents(s).contains_key(id) {
        let i = choose|i: int| 0 <= i < s.len() && s[i].id == id;
        if i > p {
            assert(s[p].id < s[i].id);
        }
    }
}

proof fn lemma_update_contents<P>(s0: Seq<BinView<P>>, p: int, x: BinView<P>)
    requires
        ids_increasing(s0),
        0 <= p < s0.len(),
        x.id == s0[p].id,
    ensures
        ids_increasing(s0.update(p, x)),
        contents(s0.update(p, x)) == contents(s0).insert(x.id, x),
{
    let s1 = s0.update(p, x);
    let id = x.id;
    assert(ids_increasing(s1));
    assert forall|k: u64| #![auto]
        contents(s1).contains_key(k) == contents(s0).insert(id, x).contains_key(k) by {
        if contents(s0).contains_key(k) {
            let i = choose|i: int| 0 <= i < s0.len() && s0[i].id == k;
            assert(s1[i].id == k);
        }
        if contents(s1).contains_key(k) {
            let i = choose|i: int| 0 <= i < s1.len() && s1[i].id == k;
            assert(s0[i].id == k);
        }
        if k == id {
            assert(s1[p].id == k);
        }
    }
    assert forall|k: u64| #![auto] contents(s1).contains_key(k) implies contents(s1)[k]
        == contents(s0).insert(id, x)[k] by {
        let i = choose|i: int| 0 <= i < s1.len() && s1[i].id == k;
        lemma_contents_at(s1, i);
        lemma_contents_at(s0, i);
    }
    assert(contents(s1) =~= contents(s0).insert(id, x));
}

proof fn lemma_insert_contents<P>(s0: Seq<BinView<P>>, p: int, x: BinView<P>)
    requires
        ids_increasing(s0),
        0 <= p <= s0.len(),
        forall|j: int| 0 <= j < p ==> s0[j].id < x.id,
        forall|j: int| p <= j < s0.len() ==> s0[j].id >= x.id,
        !(p < s0.len() && s0[p].id == x.id),
    ensures
        ids_increasing(s0.insert(p, x)),
        contents(s0.insert(p, x)) == contents(s0).insert(x.id, x),
{
    let s1 = s0.insert(p, x);
    let id = x.id;
    lemma_absent(s0, p, id);
    assert(ids_increasing(s1)) by {
        assert forall|i: int, j: int| 0 <= i < j < s1.len() implies s1[i].id < s1[j].id by {
            if j == p {
            } else if i == p {
                assert(s1[j] == s0[j - 1]);
                if j - 1 > p {
                    assert(s0[p].id < s0[j - 1].id);
                }
            } else if i > p {
                assert(s0[i - 1].id < s0[j - 1].id);
            } else if j > p {
                assert(s0[i].id < s0[j - 1].id);
            }
        }
    }
    assert forall|k: u64| #![auto]
        contents(s1).contains_key(k) == contents(s0).insert(id, x).contains_key(k) by {
        if contents(s0).contains_key(k) {
            let i = choose|i: int| 0 <= i < s0.len() && s0[i].id == k;
            if i < p {
                assert(s1[i].id == k);
            } else {
                assert(s1[i + 1].id == k);
            }
        }
        if k == id {
            assert(s1[p].id == k);
        }
        if contents(s1).contains_key(k) && k != id {
            let i = choose|i: int| 0 <= i < s1.len() && s1[i].id == k;
            if i < p {
                assert(s0[i].id == k);
            } else {
                assert(s0[i - 1].id == k);
            }
        }
    }
    assert forall|k: u64| #![auto] contents(s1).contains_key(k) implies contents(s1)[k]
        == contents(s0).insert(id, x)[k] by {
        let i = choose|i: int| 0 <= i < s1.len() && s1[i].id == k;
        lemma_contents_at(s1, i);
        if i < p {
            lemma_contents_at(s0, i);
        } else if i > p {
            lemma_contents_at(s0, i - 1);
        }
    }
    assert(contents(s1) =~= contents(s0).insert(id, x));
}

} // verus!

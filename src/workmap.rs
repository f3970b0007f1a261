//! The work map: for each region, the set of chunks that must be rendered.
use vstd::prelude::*;
use crate::coords::{SIDE, CLoc, RLoc};
use crate::timestamps::TABLE_LEN;

verus! {

/// The chunks whose flag is set in a region's block of flags.
pub open spec fn flagged(flags: Seq<bool>, start: int) -> Set<CLoc> {
    Set::new(|c: CLoc| c.valid() && flags[start + c.index()])
}

/// Which chunks of which regions must be rendered.
///
/// Each region has a block of `TABLE_LEN` flags, one per chunk, in the order
/// in which the regions were added.
pub struct WorkMap {
    regions: Vec<RLoc>,
    flags: Vec<bool>,
    model: Ghost<Map<RLoc, Set<CLoc>>>,
}

impl View for WorkMap {
    type V = Map<RLoc, Set<CLoc>>;

    closed spec fn view(&self) -> Map<RLoc, Set<CLoc>> {
        self.model@
    }
}

impl WorkMap {
    /// The regions in the order in which they were added.
    pub closed spec fn keys(&self) -> Seq<RLoc> {
        self.regions@
    }

    /// The map's internal invariant.
    pub closed spec fn wf(&self) -> bool {
        &&& self.flags@.len() == self.regions@.len() * TABLE_LEN
        &&& forall|i: int, j: int|
            0 <= i < j < self.regions@.len() ==> self.regions@[i] != self.regions@[j]
        &&& forall|r: RLoc| #[trigger]
            self.model@.dom().contains(r) <==> self.regions@.contains(r)
        &&& forall|i: int|
            0 <= i < self.regions@.len() ==> #[trigger] self.model@[self.regions@[i]] == flagged(
                self.flags@,
                i * TABLE_LEN,
            )
    }

    /// Chunk `c` of region `r` must be rendered.
    pub open spec fn requires_chunk(&self, r: RLoc, c: CLoc) -> bool {
        self@.dom().contains(r) && self@[r].contains(c)
    }

    /// A map with no region.
    pub fn new() -> (r: WorkMap)
        ensures
            r.wf(),
            r@ == Map::<RLoc, Set<CLoc>>::empty(),
            r.keys() == Seq::<RLoc>::empty(),
    {
        WorkMap { regions: Vec::new(), flags: Vec::new(), model: Ghost(Map::empty()) }
    }

    /// Number of regions in the map.
    pub fn len(&self) -> (r: usize)
        requires
            self.wf(),
        ensures
            r == self.keys().len(),
            r == self@.dom().len(),
    {
        proof {
            self.lemma_dom_finite();
        }
        self.regions.len()
    }

    proof fn lemma_dom_finite(&self)
        requires
            self.wf(),
        ensures
            self@.dom() == self.keys().to_set(),
            self@.dom().len() == self.keys().len(),
    {
        assert(self@.dom() =~= self.keys().to_set());
        self.keys().unique_seq_to_set();
    }

    /// The regions of the map are the keys, each listed once.
    pub proof fn lemma_keys_dom(&self)
        requires
            self.wf(),
        ensures
            self@.dom() == self.keys().to_set(),
            self.keys().no_duplicates(),
    {
        assert(self@.dom() =~= self.keys().to_set());
    }

    /// The `i`-th region in the order of addition.
    pub fn region(&self, i: usize) -> (r: RLoc)
        requires
            self.wf(),
            i < self.keys().len(),
        ensures
            r == self.keys()[i as int],
            self@.dom().contains(r),
    {
        self.regions[i]
    }

    /// Position of region `r`, if it is in the map.
    pub fn find(&self, r: &RLoc) -> (res: Option<usize>)
        requires
            self.wf(),
        ensures
            res is None <==> !self@.dom().contains(*r),
            res matches Some(i) ==> i < self.keys().len() && self.keys()[i as int] == *r,
    {
        let mut i: usize = 0;
        while i < self.regions.len()
            invariant
                self.wf(),
                i <= self.regions@.len(),
                forall|j: int| 0 <= j < i ==> self.regions@[j] != *r,
            decreases self.regions@.len() - i,
        {
            if self.regions[i] == *r {
                return Some(i);
            }
            i += 1;
        }
        assert(!self.regions@.contains(*r));
        None
    }

    /// Position of region `r`, added with no chunk where it is missing.
    pub fn entry(&mut self, r: &RLoc) -> (res: usize)
        requires
            old(self).wf(),
        ensures
            final(self).wf(),
            res < final(self).keys().len(),
            final(self).keys()[res as int] == *r,
            final(self)@.dom().contains(*r),
            old(self)@.dom().contains(*r) ==> final(self)@ == old(self)@ && final(self).keys()
                == old(self).keys(),
            !old(self)@.dom().contains(*r) ==> final(self)@ == old(self)@.insert(
                *r,
                Set::<CLoc>::empty(),
            ) && final(self).keys() == old(self).keys().push(*r),
    {
        match self.find(r) {
            Some(i) => {
                assert(self.regions@.contains(*r));
                i
            },
            None => {
                let n = self.regions.len();
                let ghost old_flags = self.flags@;
                let ghost old_regions = self.regions@;
                let ghost old_model = self.model@;
                let mut k: usize = 0;
                while k < TABLE_LEN
                    invariant
                        k <= TABLE_LEN,
                        self.regions@ == old_regions,
                        self.model@ == old_model,
                        old_flags.len() == n * TABLE_LEN,
                        self.flags@.len() == old_flags.len() + k,
                        self.flags@.subrange(0, old_flags.len() as int) == old_flags,
                        forall|j: int| old_flags.len() <= j < self.flags@.len() ==> !self.flags@[j],
                    decreases TABLE_LEN - k,
                {
                    self.flags.push(false);
                    k += 1;
                }
                self.regions.push(*r);
                self.model = Ghost(self.model@.insert(*r, Set::empty()));
                assert(self.flags@.len() == self.regions@.len() * TABLE_LEN);
                assert forall|i: int, j: int|
                    0 <= i < j < self.regions@.len() implies self.regions@[i] != self.regions@[j] by {
                    if j == n {
                        assert(old_regions.contains(old_regions[i]));
                    } else {
                        assert(old_regions[i] != old_regions[j]);
                    }
                }
                assert forall|q: RLoc| #[trigger] self.model@.dom().contains(q) <==> self.regions@.contains(q) by {
                    if self.regions@.contains(q) && q != *r {
                        let j = choose|j: int| 0 <= j < self.regions@.len() && self.regions@[j] == q;
                        assert(old_regions[j] == q);
                    }
                    if old_regions.contains(q) {
                        let j = choose|j: int| 0 <= j < old_regions.len() && old_regions[j] == q;
                        assert(self.regions@[j] == q);
                    }
                    assert(self.regions@[n as int] == *r);
                }
                assert forall|i: int|
                    0 <= i < self.regions@.len() implies #[trigger] self.model@[self.regions@[i]]
                    == flagged(self.flags@, i * TABLE_LEN) by {
                    if i < n {
                        assert(self.regions@[i] == old_regions[i]);
                        assert(old_regions.contains(old_regions[i]));
                        assert(flagged(self.flags@, i * TABLE_LEN) =~= flagged(old_flags, i * TABLE_LEN)) by {
                            assert forall|c: CLoc| c.valid() implies self.flags@[i * TABLE_LEN + c.index()]
                                == old_flags[i * TABLE_LEN + c.index()] by {
                                assert(self.flags@.subrange(0, old_flags.len() as int)[i * TABLE_LEN + c.index()]
                                    == old_flags[i * TABLE_LEN + c.index()]);
                            }
                        }
                    } else {
                        assert forall|c: CLoc| c.valid() implies !self.flags@[i * TABLE_LEN + c.index()] by {
                            assert(c.index() < TABLE_LEN);
                        }
                        assert(flagged(self.flags@, i * TABLE_LEN) =~= Set::<CLoc>::empty());
                    }
                }
                n
            },
        }
    }

    /// Marks chunk `c` of the `i`-th region for rendering.
    pub fn mark(&mut self, i: usize, c: CLoc)
        requires
            old(self).wf(),
            i < old(self).keys().len(),
            c.valid(),
        ensures
            final(self).wf(),
            final(self).keys() == old(self).keys(),
            old(self)@.dom().contains(old(self).keys()[i as int]),
            final(self)@ == old(self)@.insert(
                old(self).keys()[i as int],
                old(self)@[old(self).keys()[i as int]].insert(c),
            ),
    {
        let r = self.regions[i];
        assert(self.regions@.contains(r));
        let total = self.flags.len();
        let ghost old_flags = self.flags@;
        assert(i * TABLE_LEN + TABLE_LEN <= self.regions@.len() * TABLE_LEN) by (nonlinear_arith)
            requires
                i < self.regions@.len(),
        ;
        let k = i * TABLE_LEN + (c.1 * SIDE + c.0);
        self.flags.set(k, true);
        self.model = Ghost(self.model@.insert(r, self.model@[r].insert(c)));
        assert forall|j: int|
            0 <= j < self.regions@.len() implies #[trigger] self.model@[self.regions@[j]]
            == flagged(self.flags@, j * TABLE_LEN) by {
            if j == i {
                assert(flagged(self.flags@, j * TABLE_LEN) =~= flagged(old_flags, j * TABLE_LEN).insert(c));
            } else {
                assert(self.regions@[j] != r);
                assert(flagged(self.flags@, j * TABLE_LEN) =~= flagged(old_flags, j * TABLE_LEN));
            }
        }
    }

    /// The chunks of the `i`-th region that must be rendered, each once, by
    /// increasing index.
    pub fn chunks(&self, i: usize) -> (r: Vec<CLoc>)
        requires
            self.wf(),
            i < self.keys().len(),
        ensures
            r@.no_duplicates(),
            forall|c: CLoc| r@.contains(c) <==> self@[self.keys()[i as int]].contains(c),
            forall|j: int| 0 <= j < r@.len() ==> (#[trigger] r@[j]).valid(),
            r@.len() == self@[self.keys()[i as int]].len(),
            r@.len() <= TABLE_LEN,
            forall|a: int, b: int| 0 <= a < b < r@.len() ==> r@[a].index() < r@[b].index(),
    {
        let total = self.flags.len();
        assert(i * TABLE_LEN + TABLE_LEN <= self.regions@.len() * TABLE_LEN) by (nonlinear_arith)
            requires
                i < self.regions@.len(),
        ;
        let base = i * TABLE_LEN;
        let ghost set = self@[self.keys()[i as int]];
        let mut out: Vec<CLoc> = Vec::new();
        let mut index: usize = 0;
        while index < TABLE_LEN
            invariant
                self.wf(),
                i < self.keys().len(),
                base == i * TABLE_LEN,
                base + TABLE_LEN <= total == self.flags@.len(),
                set == flagged(self.flags@, base as int),
                index <= TABLE_LEN,
                out@.len() <= index,
                out@.no_duplicates(),
                forall|a: int, b: int| 0 <= a < b < out@.len() ==> out@[a].index() < out@[b].index(),
                forall|j: int| 0 <= j < out@.len() ==> (#[trigger] out@[j]).valid() && out@[j].index() < index,
                forall|c: CLoc| c.valid() && c.index() < index ==> (out@.contains(c) <==> set.contains(c)),
                forall|c: CLoc| out@.contains(c) ==> c.valid() && c.index() < index,
            decreases TABLE_LEN - index,
        {
            let c = CLoc(index % SIDE, index / SIDE);
            let ghost old_out = out@;
            let flag = self.flags[base + index];
            if flag {
                proof {
                    assert forall|j: int| 0 <= j < out@.len() implies out@[j] != c by {
                        assert(out@[j].index() < index);
                    }
                }
                out.push(c);
            }
            proof {
                assert(c.index() == index);
                assert(set.contains(c) == flag);
                assert forall|d: CLoc| d.valid() && d.index() < index + 1 implies (out@.contains(d)
                    <==> set.contains(d)) by {
                    if d.index() == index {
                        assert(d == c);
                        if flag {
                            assert(out@[out@.len() - 1] == c);
                        } else {
                            assert(out@ == old_out);
                        }
                    } else {
                        if flag {
                            assert(out@ == old_out.push(c));
                            if out@.contains(d) {
                                let j = choose|j: int| 0 <= j < out@.len() && out@[j] == d;
                                assert(j < old_out.len());
                                assert(old_out[j] == d);
                            }
                            if old_out.contains(d) {
                                let j = choose|j: int| 0 <= j < old_out.len() && old_out[j] == d;
                                assert(out@[j] == d);
                            }
                        }
                    }
                }
                assert forall|d: CLoc| out@.contains(d) implies d.valid() && d.index() < index + 1 by {
                    let j = choose|j: int| 0 <= j < out@.len() && out@[j] == d;
                    if j < old_out.len() {
                        assert(old_out[j] == d);
                        assert(old_out.contains(d));
                    }
                }
            }
            index += 1;
        }
        proof {
            assert forall|c: CLoc| out@.contains(c) <==> set.contains(c) by {
                if set.contains(c) {
                    assert(c.index() < TABLE_LEN);
                }
            }
            assert(out@.to_set() =~= set);
            out@.unique_seq_to_set();
        }
        out
    }

    /// Number of chunks required in the first `n` regions.
    pub open spec fn count_prefix(&self, n: int) -> int
        decreases n,
    {
        if n <= 0 {
            0
        } else {
            self.count_prefix(n - 1) + self@[self.keys()[n - 1]].len()
        }
    }

    /// Number of chunks required over all regions.
    pub fn total_chunks(&self) -> (r: usize)
        requires
            self.wf(),
        ensures
            r == self.count_prefix(self.keys().len() as int),
    {
        let n = self.regions.len();
        let cap = self.flags.len();
        let mut total: usize = 0;
        let mut i: usize = 0;
        while i < n
            invariant
                self.wf(),
                n == self.keys().len(),
                cap == n * TABLE_LEN,
                i <= n,
                total == self.count_prefix(i as int),
                total <= i * TABLE_LEN,
            decreases n - i,
        {
            let listed = self.chunks(i);
            assert((i + 1) * TABLE_LEN <= n * TABLE_LEN) by (nonlinear_arith)
                requires
                    i < n,
            ;
            total = total + listed.len();
            i += 1;
        }
        total
    }
}

} // verus!

use vstd::prelude::*;

verus! {

/// One entry of a history: the height of a write, and the value that the last
/// write at that height left (`None` once the value has been removed).
pub type Checkpoint = (u64, Option<u128>);

/// The value that a query at height `q` sees: the one left by the last
/// checkpoint written strictly below `q`, or `None` before the first one.
/// Writes made at height `h` therefore become visible from height `h + 1`.
pub open spec fn value_at(cps: Seq<Checkpoint>, q: int) -> Option<u128>
    decreases cps.len(),
{
    if cps.len() == 0 {
        None
    } else if (cps.last().0 as int) < q {
        cps.last().1
    } else {
        value_at(cps.drop_last(), q)
    }
}

/// The live value: the one left by the latest checkpoint.
pub open spec fn current(cps: Seq<Checkpoint>) -> Option<u128> {
    if cps.len() == 0 {
        None
    } else {
        cps.last().1
    }
}

/// A missing value reads as zero.
pub open spec fn weight_of(v: Option<u128>) -> int {
    match v {
        Some(w) => w as int,
        None => 0,
    }
}

/// Checkpoints are ordered by height, one per height.
pub open spec fn heights_increasing(cps: Seq<Checkpoint>) -> bool {
    forall|i: int, j: int| 0 <= i < j < cps.len() ==> cps[i].0 < cps[j].0
}

/// Every checkpoint was written at or below height `h`.
pub open spec fn heights_at_most(cps: Seq<Checkpoint>, h: u64) -> bool {
    forall|i: int| 0 <= i < cps.len() ==> cps[i].0 <= h
}

/// The history after writing `v` at height `h`: a second write at the height
/// of the latest checkpoint overwrites it, any other write appends.
pub open spec fn recorded(cps: Seq<Checkpoint>, h: u64, v: Option<u128>) -> Seq<Checkpoint> {
    if cps.len() > 0 && cps.last().0 == h {
        cps.drop_last().push((h, v))
    } else {
        cps.push((h, v))
    }
}

/// Writing at height `h` leaves every query at or below `h` as it was, and
/// makes every query above `h` see the new value.
pub proof fn lemma_recorded_value_at(cps: Seq<Checkpoint>, h: u64, v: Option<u128>, q: int)
    requires
        heights_at_most(cps, h),
    ensures
        q <= h ==> value_at(recorded(cps, h, v), q) == value_at(cps, q),
        q > h ==> value_at(recorded(cps, h, v), q) == v,
{
    let r = recorded(cps, h, v);
    assert(r.last() == (h, v));
    if q <= h {
        if cps.len() > 0 && cps.last().0 == h {
            assert(r.drop_last() =~= cps.drop_last());
        } else {
            assert(r.drop_last() =~= cps);
        }
    }
}

/// A query just above a height at which nothing was written sees what a
/// query at that height sees.
pub proof fn lemma_value_at_step(cps: Seq<Checkpoint>, q: int)
    requires
        forall|i: int| 0 <= i < cps.len() ==> cps[i].0 != q - 1,
    ensures
        value_at(cps, q) == value_at(cps, q - 1),
    decreases cps.len(),
{
    if cps.len() > 0 {
        lemma_value_at_step(cps.drop_last(), q);
    }
}

/// No checkpoint lies below height zero.
pub proof fn lemma_value_at_non_positive(cps: Seq<Checkpoint>, q: int)
    requires
        q <= 0,
    ensures
        value_at(cps, q) is None,
    decreases cps.len(),
{
    if cps.len() > 0 {
        lemma_value_at_non_positive(cps.drop_last(), q);
    }
}

/// Above every checkpoint a query sees the live value.
pub proof fn lemma_value_at_above(cps: Seq<Checkpoint>, h: u64, q: int)
    requires
        heights_at_most(cps, h),
        q > h,
    ensures
        value_at(cps, q) == current(cps),
{
}

/// Writing keeps the checkpoints ordered and bounded by the write's height.
pub proof fn lemma_recorded_ordered(cps: Seq<Checkpoint>, h: u64, v: Option<u128>, bound: u64)
    requires
        heights_increasing(cps),
        heights_at_most(cps, h),
        h <= bound,
    ensures
        heights_increasing(recorded(cps, h, v)),
        heights_at_most(recorded(cps, h, v), bound),
        current(recorded(cps, h, v)) == v,
{
    let r = recorded(cps, h, v);
    if cps.len() > 0 && cps.last().0 == h {
        assert forall|i: int, j: int| 0 <= i < j < r.len() implies r[i].0 < r[j].0 by {
            if j == r.len() - 1 {
                assert(r[i] == cps[i]);
                assert(cps[i].0 < cps[cps.len() - 1].0);
            }
        }
    }
}

/// A height-indexed history of one value.
pub struct History {
    checkpoints: Vec<Checkpoint>,
}

impl View for History {
    type V = Seq<Checkpoint>;

    closed spec fn view(&self) -> Seq<Checkpoint> {
        self.checkpoints@
    }
}

impl History {
    pub open spec fn wf(&self) -> bool {
        heights_increasing(self@)
    }

    /// An empty history: every query sees `None`.
    pub fn new() -> (r: History)
        ensures
            r@ == Seq::<Checkpoint>::empty(),
            r.wf(),
    {
        History { checkpoints: Vec::new() }
    }

    /// A history holding exactly `cps`.
    pub fn from_checkpoints(cps: Vec<Checkpoint>) -> (r: History)
        ensures
            r@ == cps@,
    {
        History { checkpoints: cps }
    }

    /// A copy of the checkpoints.
    pub fn checkpoints(&self) -> (r: Vec<Checkpoint>)
        ensures
            r@ == self@,
    {
        let mut r: Vec<Checkpoint> = Vec::new();
        let mut i: usize = 0;
        while i < self.checkpoints.len()
            invariant
                i <= self@.len(),
                r@ == self@.take(i as int),
            decreases self@.len() - i,
        {
            r.push(self.checkpoints[i]);
            assert(r@ =~= self@.take(i + 1));
            i = i + 1;
        }
        assert(self@.take(i as int) =~= self@);
        r
    }

    /// Whether the checkpoints are ordered by height and none lies above `bound`.
    pub fn is_ordered_within(&self, bound: u64) -> (r: bool)
        ensures
            r == (heights_increasing(self@) && heights_at_most(self@, bound)),
    {
        let mut i: usize = 0;
        while i < self.checkpoints.len()
            invariant
                i <= self@.len(),
                heights_increasing(self@.take(i as int)),
                heights_at_most(self@.take(i as int), bound),
            decreases self@.len() - i,
        {
            let h = self.checkpoints[i].0;
            if h > bound {
                assert(!heights_at_most(self@, bound));
                return false;
            }
            if i > 0 && self.checkpoints[i - 1].0 >= h {
                assert(!heights_increasing(self@));
                return false;
            }
            proof {
                let t = self@.take(i + 1);
                assert forall|a: int, b: int| 0 <= a < b < t.len() implies t[a].0 < t[b].0 by {
                    if b == i && a < i - 1 {
                        assert(self@.take(i as int)[a].0 < self@.take(i as int)[i - 1].0);
                    }
                }
            }
            i = i + 1;
        }
        assert(self@.take(i as int) =~= self@);
        true
    }

    /// The live value.
    pub fn load(&self) -> (r: Option<u128>)
        ensures
            r == current(self@),
    {
        let n = self.checkpoints.len();
        if n == 0 {
            None
        } else {
            self.checkpoints[n - 1].1
        }
    }

    /// The value that a query at height `q` sees.
    pub fn load_at(&self, q: u64) -> (r: Option<u128>)
        ensures
            r == value_at(self@, q as int),
    {
        let mut i: usize = self.checkpoints.len();
        assert(self@.subrange(0, i as int) =~= self@);
        while i > 0
            invariant
                i <= self@.len(),
                value_at(self@, q as int) == value_at(self@.subrange(0, i as int), q as int),
            decreases i,
        {
            let ghost prefix = self@.subrange(0, i as int);
            assert(prefix.drop_last() =~= self@.subrange(0, i - 1));
            let cp = self.checkpoints[i - 1];
            if cp.0 < q {
                return cp.1;
            }
            i = i - 1;
        }
        None
    }

    /// Writes `v` at height `h`, which is not below any earlier write.
    pub fn save(&mut self, h: u64, v: Option<u128>)
        requires
            heights_at_most(old(self)@, h),
        ensures
            final(self)@ == recorded(old(self)@, h, v),
            old(self).wf() ==> final(self).wf(),
    {
        proof {
            if old(self).wf() {
                lemma_recorded_ordered(old(self)@, h, v, h);
            }
        }
        let n = self.checkpoints.len();
        if n > 0 && self.checkpoints[n - 1].0 == h {
            self.checkpoints.set(n - 1, (h, v));
            assert(self.checkpoints@ =~= recorded(old(self)@, h, v));
        } else {
            self.checkpoints.push((h, v));
        }
    }
}

} // verus!

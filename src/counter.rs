//! A list cursor: the highlighted position within a list of known length.

use vstd::prelude::*;

verus! {

/// The highlighted row of a list with `size` rows. Nothing is highlighted
/// until the cursor is first read or moved.
#[derive(Debug, Clone, Copy, Default)]
pub struct StatefulListCounter {
    state: Option<usize>,
    size: usize,
}

impl StatefulListCounter {
    /// The number of rows of the list.
    pub closed spec fn len(&self) -> nat {
        self.size as nat
    }

    /// The highlighted row, if any was ever chosen.
    pub closed spec fn pos(&self) -> Option<nat> {
        match self.state {
            Some(i) => Some(i as nat),
            None => None,
        }
    }

    /// The row that reading the cursor reports: the highlighted one, else the first.
    pub open spec fn index(&self) -> nat {
        match self.pos() {
            Some(i) => i,
            None => 0,
        }
    }

    /// The reported row lies within the list (or is the first row of an empty one).
    pub open spec fn wf(&self) -> bool {
        self.index() < self.len() || self.index() == 0
    }

    /// The row that `next` moves to.
    pub open spec fn next_index(&self) -> nat {
        match self.pos() {
            Some(i) => if i + 1 >= self.len() { 0 } else { (i + 1) as nat },
            None => 0,
        }
    }

    /// The row that `previous` moves to.
    pub open spec fn previous_index(&self) -> nat {
        match self.pos() {
            Some(i) => if i == 0 { (self.len() - 1) as nat } else { (i - 1) as nat },
            None => 0,
        }
    }

    /// A cursor over `size` rows with nothing highlighted yet.
    pub fn new(size: usize) -> (r: Self)
        ensures
            r.len() == size,
            r.pos() is None,
            r.wf(),
    {
        StatefulListCounter { state: None, size }
    }

    /// Moves to the following row, wrapping round to the first past the end.
    pub fn next(&mut self)
        requires
            old(self).len() > 0,
        ensures
            final(self).len() == old(self).len(),
            final(self).pos() == Some(old(self).next_index()),
            final(self).wf(),
    {
        let i: usize = match self.state {
            Some(i) => if i >= self.size - 1 { 0 } else { i + 1 },
            None => 0,
        };
        self.state = Some(i);
    }

    /// Moves to the preceding row, wrapping round to the last before the start.
    pub fn previous(&mut self)
        requires
            old(self).len() > 0,
            old(self).wf(),
        ensures
            final(self).len() == old(self).len(),
            final(self).pos() == Some(old(self).previous_index()),
            final(self).wf(),
    {
        let i: usize = match self.state {
            Some(i) => if i == 0 { self.size - 1 } else { i - 1 },
            None => 0,
        };
        self.state = Some(i);
    }

    /// The number of rows of the list.
    pub fn size(&self) -> (r: usize)
        ensures
            r == self.len(),
    {
        self.size
    }

    /// The highlighted row; the first row becomes highlighted if none was.
    pub fn selected(&mut self) -> (r: usize)
        ensures
            r == old(self).index(),
            final(self).len() == old(self).len(),
            final(self).pos() == Some(r as nat),
            old(self).wf() ==> final(self).wf(),
    {
        match self.state {
            Some(i) => i,
            None => {
                self.state = Some(0);
                0
            },
        }
    }

    /// The row that `selected` would report, without highlighting anything.
    pub fn current(&self) -> (r: usize)
        ensures
            r == self.index(),
    {
        match self.state {
            Some(i) => i,
            None => 0,
        }
    }

    /// Highlights row `index`, or the last row where `index` lies past the end.
    pub fn set_selected(&mut self, index: usize)
        requires
            old(self).len() > 0,
        ensures
            final(self).len() == old(self).len(),
            final(self).pos() == Some(
                if index < old(self).len() { index as nat } else { (old(self).len() - 1) as nat },
            ),
            final(self).wf(),
    {
        let last = self.size - 1;
        let i = if index < last { index } else { last };
        self.state = Some(i);
    }
}

/// Advancing a highlighted cursor once per row brings it back to the row it
/// started on.
pub proof fn lemma_next_cycles(c: StatefulListCounter, steps: Seq<StatefulListCounter>)
    requires
        c.len() > 0,
        c.pos() is Some,
        c.wf(),
        steps.len() == c.len() + 1,
        steps[0] == c,
        forall|k: int|
            0 <= k < c.len() ==> (#[trigger] steps[k + 1]).len() == steps[k].len() && steps[k
                + 1].pos() == Some(steps[k].next_index()),
    ensures
        steps[c.len() as int].index() == c.index(),
{
    let n = c.len() as int;
    let start = c.index() as int;
    lemma_step_position(c, steps, n);
    assert((start + n) % n == start) by (nonlinear_arith)
        requires
            0 <= start < n,
    ;
}

proof fn lemma_step_position(c: StatefulListCounter, steps: Seq<StatefulListCounter>, k: int)
    requires
        c.len() > 0,
        c.pos() is Some,
        c.wf(),
        steps.len() == c.len() + 1,
        steps[0] == c,
        forall|j: int|
            0 <= j < c.len() ==> (#[trigger] steps[j + 1]).len() == steps[j].len() && steps[j
                + 1].pos() == Some(steps[j].next_index()),
        0 <= k <= c.len(),
    ensures
        steps[k].len() == c.len(),
        steps[k].pos() is Some,
        steps[k].index() == (c.index() + k) % (c.len() as int),
    decreases k,
{
    let n = c.len() as int;
    let start = c.index() as int;
    if k == 0 {
        assert(start % n == start) by (nonlinear_arith)
            requires
                0 <= start < n,
        ;
    } else {
        lemma_step_position(c, steps, k - 1);
        let prev = (start + k - 1) % n;
        assert(0 <= prev < n) by (nonlinear_arith)
            requires
                n > 0,
                prev == (start + k - 1) % n,
        ;
        assert(steps[k] == steps[(k - 1) + 1]);
        if prev + 1 >= n {
            assert((start + k) % n == 0) by (nonlinear_arith)
                requires
                    n > 0,
                    prev == (start + k - 1) % n,
                    prev + 1 >= n,
                    prev < n,
            ;
        } else {
            assert((start + k) % n == prev + 1) by (nonlinear_arith)
                requires
                    n > 0,
                    prev == (start + k - 1) % n,
                    prev + 1 < n,
                    0 <= prev,
            ;
        }
    }
}

} // verus!

use vstd::prelude::*;

verus! {

/// The pairs `(lower, upper)` that a run starting at `start`, advancing by
/// `step` and bounded by `max` produces: `(start, start + step)`, then each
/// next pair shifted by `step`, as long as the upper end stays within `max`.
/// A step of zero gives no pairs.
pub open spec fn range_pairs(start: usize, step: usize, max: usize) -> Seq<(usize, usize)>
    decreases max - start,
{
    if step == 0 || start + step > max {
        Seq::empty()
    } else {
        seq![(start, (start + step) as usize)] + range_pairs((start + step) as usize, step, max)
    }
}

/// The shape of a run with a positive step: it starts at `start`, each pair
/// spans exactly `step`, adjacent pairs meet, and the last upper end is
/// `start + n * step`, the largest such value within `max`.
pub proof fn lemma_range_pairs_shape(start: usize, step: usize, max: usize)
    requires
        step > 0,
        start <= max,
    ensures
        ({
            let s = range_pairs(start, step, max);
            &&& s.len() > 0 ==> s[0].0 == start
            &&& forall|i: int| 0 <= i < s.len() ==> (#[trigger] s[i]).1 == s[i].0 + step
            &&& forall|i: int| 0 <= i < s.len() - 1 ==> (#[trigger] s[i]).1 == s[i + 1].0
            &&& s.len() > 0 ==> s[s.len() - 1].1 == start + s.len() * step
            &&& start + s.len() * step <= max < start + s.len() * step + step
        }),
    decreases max - start,
{
    let s = range_pairs(start, step, max);
    if start + step <= max {
        let next = (start + step) as usize;
        lemma_range_pairs_shape(next, step, max);
        let rest = range_pairs(next, step, max);
        assert(s =~= seq![(start, next)] + rest);
        assert forall|i: int| 0 <= i < s.len() - 1 implies (#[trigger] s[i]).1 == s[i + 1].0 by {
            if i > 0 {
                assert(s[i] == rest[i - 1]);
            }
        }
        assert(next + rest.len() * step == start + s.len() * step) by (nonlinear_arith)
            requires
                next == start + step,
                s.len() == rest.len() + 1,
        ;
    }
}

/// A finite run of contiguous bucket boundaries `(lower_exclusive, upper_inclusive)`
/// of a fixed width.
pub struct RangeIter {
    current: usize,
    next: Option<usize>,
    step: usize,
    max: usize,
}

impl View for RangeIter {
    type V = Seq<(usize, usize)>;

    /// The pairs that are still to come.
    closed spec fn view(&self) -> Seq<(usize, usize)> {
        range_pairs(self.current, self.step, self.max)
    }
}

impl RangeIter {
    /// The cached upper end of the next pair agrees with the other fields.
    pub closed spec fn wf(&self) -> bool {
        self.next == (if self.step > 0 && self.current + self.step <= self.max {
            Some((self.current + self.step) as usize)
        } else {
            None::<usize>
        })
    }

    /// A run from `start` by `step` up to `max`. It is empty when `step` is
    /// zero or when `start + step` exceeds `max`.
    pub fn new(start: usize, step: usize, max: usize) -> (r: Self)
        ensures
            r.wf(),
            r@ == range_pairs(start, step, max),
    {
        let next = match start.checked_add(step) {
            Some(n) if step > 0 && n <= max => Some(n),
            _ => None,
        };
        RangeIter { current: start, next, step, max }
    }

    /// Hands out the next pair, or `None` once the run is over.
    pub fn next(&mut self) -> (r: Option<(usize, usize)>)
        requires
            old(self).wf(),
        ensures
            final(self).wf(),
            old(self)@.len() == 0 ==> r is None && final(self)@ == old(self)@,
            old(self)@.len() > 0 ==> r == Some(old(self)@[0]) && final(self)@ == old(self)@.drop_first(),
    {
        let next = match self.next {
            Some(x) => x,
            None => return None,
        };
        let current = self.current;
        self.current = next;
        self.next = match next.checked_add(self.step) {
            Some(n) if n <= self.max => Some(n),
            _ => None,
        };
        proof {
            assert(old(self)@ =~= seq![(current, next)] + self@);
        }
        Some((current, next))
    }
}

} // verus!

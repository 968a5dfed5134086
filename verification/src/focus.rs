//! Pages in the order of their distance from the one in focus.

use vstd::prelude::*;

verus! {

/// The page that is looked at in a step: the one in focus, then the next one,
/// the previous one, the one after the next and so on. It may not exist.
pub open spec fn candidate(start: int, step: int) -> int {
    if step % 2 == 1 {
        start + (step + 1) / 2
    } else {
        start - step / 2
    }
}

/// The pages of a range that the first `steps` steps meet.
pub open spec fn met(start: int, low: int, high: int, steps: int) -> Seq<usize>
    decreases steps,
{
    if steps <= 0 {
        Seq::empty()
    } else {
        let rest = met(start, low, high, steps - 1);
        let page = candidate(start, steps - 1);
        if low <= page < high {
            rest.push(page as usize)
        } else {
            rest
        }
    }
}

/// The pages of a range, nearest first; of two at the same distance, the later
/// one first.
pub open spec fn focus_order(start: int, low: int, high: int) -> Seq<usize> {
    met(start, low, high, 2 * (high - low))
}

/// Walks over the pages of a range, from the one in focus outwards.
pub struct FocusPlusMinusOneIterator {
    pub start: usize,
    pub low: usize,
    pub high: usize,
    pub step: u128,
}

proof fn lemma_met_grows(start: int, low: int, high: int, a: int, b: int)
    requires
        0 <= a <= b,
    ensures
        met(start, low, high, a).len() <= met(start, low, high, b).len(),
        forall|i: int|
            0 <= i < met(start, low, high, a).len() ==> met(start, low, high, a)[i] == #[trigger] met(
                start,
                low,
                high,
                b,
            )[i],
    decreases b,
{
    if a < b {
        lemma_met_grows(start, low, high, a, b - 1);
    }
}

impl FocusPlusMinusOneIterator {
    pub open spec fn wf(self) -> bool {
        self.low <= self.high && self.step <= 2 * (self.high - self.low)
    }

    /// All pages of the walk.
    pub open spec fn order(self) -> Seq<usize> {
        focus_order(self.start as int, self.low as int, self.high as int)
    }

    /// How many pages the walk has passed.
    pub open spec fn passed(self) -> int {
        met(self.start as int, self.low as int, self.high as int, self.step as int).len() as int
    }

    pub fn new(start: usize, low: usize, high: usize) -> (r: Self)
        requires
            low <= start < high,
        ensures
            r.wf(),
            r.start == start,
            r.low == low,
            r.high == high,
            r.passed() == 0,
    {
        FocusPlusMinusOneIterator { start, low, high, step: 0 }
    }

    /// The next page of the walk.
    pub fn next(&mut self) -> (r: Option<usize>)
        requires
            old(self).wf(),
        ensures
            final(self).wf(),
            final(self).start == old(self).start,
            final(self).low == old(self).low,
            final(self).high == old(self).high,
            match r {
                Some(page) => old(self).passed() < old(self).order().len() && page
                    == old(self).order()[old(self).passed()] && final(self).passed()
                    == old(self).passed() + 1,
                None => old(self).passed() == old(self).order().len() && final(self).passed()
                    == old(self).passed(),
            },
    {
        let limit: u128 = (self.high - self.low) as u128 * 2;
        let ghost (s, l, h) = (self.start as int, self.low as int, self.high as int);
        while self.step < limit
            invariant
                limit == 2 * (self.high - self.low),
                self.wf(),
                self.start == old(self).start,
                self.low == old(self).low,
                self.high == old(self).high,
                s == self.start,
                l == self.low,
                h == self.high,
                self.passed() == old(self).passed(),
                old(self).order() == focus_order(s, l, h),
            decreases limit - self.step,
        {
            let step: u128 = self.step;
            let radius: u128 = step / 2 + step % 2;
            self.step = step + 1;
            let start: u128 = self.start as u128;
            let page: Option<u128> = if step % 2 == 1 {
                Some(start + radius)
            } else if radius <= start {
                Some(start - radius)
            } else {
                None
            };
            if let Some(page) = page {
                if self.low as u128 <= page && page < self.high as u128 {
                    proof {
                        assert(page == candidate(s, step as int));
                        lemma_met_grows(s, l, h, step + 1, limit as int);
                        assert(met(s, l, h, step + 1) == met(s, l, h, step as int).push(
                            page as usize,
                        ));
                        assert(met(s, l, h, limit as int)[old(self).passed()] == met(
                            s,
                            l,
                            h,
                            step + 1,
                        )[old(self).passed()]);
                    }
                    return Some(page as usize);
                }
            }
        }
        None
    }
}

proof fn lemma_met(start: int, low: int, high: int, steps: int)
    requires
        0 <= low,
        high <= usize::MAX,
        steps >= 0,
    ensures
        forall|i: int|
            0 <= i < met(start, low, high, steps).len() ==> {
                let page = (#[trigger] met(start, low, high, steps)[i]) as int;
                low <= page < high && exists|step: int|
                    0 <= step < steps && page == #[trigger] candidate(start, step)
            },
        met(start, low, high, steps).no_duplicates(),
        forall|step: int|
            0 <= step < steps && low <= #[trigger] candidate(start, step) < high ==> met(
                start,
                low,
                high,
                steps,
            ).contains(candidate(start, step) as usize),
    decreases steps,
{
    if steps > 0 {
        lemma_met(start, low, high, steps - 1);
        let rest = met(start, low, high, steps - 1);
        let all = met(start, low, high, steps);
        let page = candidate(start, steps - 1);
        assert forall|i: int| 0 <= i < all.len() implies ({
            let page = (#[trigger] all[i]) as int;
            low <= page < high && exists|step: int|
                0 <= step < steps && page == #[trigger] candidate(start, step)
        }) by {
            if i < rest.len() {
                let p = rest[i] as int;
                let step = choose|step: int|
                    0 <= step < steps - 1 && p == #[trigger] candidate(start, step);
                assert(all[i] == rest[i]);
                assert(p == candidate(start, step));
            } else {
                assert(all[i] as int == candidate(start, steps - 1));
            }
        }
        if low <= page < high {
            assert forall|i: int| 0 <= i < rest.len() implies rest[i] != page as usize by {
                let p = rest[i] as int;
                let step = choose|step: int|
                    0 <= step < steps - 1 && p == #[trigger] candidate(start, step);
                assert(p == candidate(start, step));
            }
        }
        assert forall|step: int|
            0 <= step < steps && low <= #[trigger] candidate(start, step)
                < high implies all.contains(candidate(start, step) as usize) by {
            if step < steps - 1 {
                let p = candidate(start, step) as usize;
                assert(rest.contains(p));
                let i = choose|i: int| 0 <= i < rest.len() && rest[i] == p;
                assert(all[i] == p);
            } else {
                assert(all[all.len() - 1] == page as usize);
            }
        }
    }
}

/// The walk meets every page of the range once and no other page.
pub proof fn law_walk_meets_every_page_once(start: int, low: int, high: int)
    requires
        0 <= low <= start < high <= usize::MAX,
    ensures
        focus_order(start, low, high).no_duplicates(),
        forall|page: usize| #[trigger]
            focus_order(start, low, high).contains(page) <==> low <= page < high,
{
    let n = 2 * (high - low);
    lemma_met(start, low, high, n);
    assert forall|page: usize| #[trigger]
        focus_order(start, low, high).contains(page) <==> low <= page < high by {
        if low <= page < high {
            let step = if page > start {
                2 * (page - start) - 1
            } else {
                2 * (start - page)
            };
            assert(candidate(start, step) == page);
        }
    }
}

/// How far a page is from the one in focus.
pub open spec fn distance(a: int, b: int) -> int {
    if a <= b {
        b - a
    } else {
        a - b
    }
}

proof fn lemma_distances(start: int, low: int, high: int, steps: int)
    requires
        0 <= low,
        high <= usize::MAX,
        steps >= 0,
    ensures
        forall|i: int|
            0 <= i < met(start, low, high, steps).len() ==> distance(
                start,
                (#[trigger] met(start, low, high, steps)[i]) as int,
            ) <= steps / 2,
        forall|i: int, j: int|
            0 <= i <= j < met(start, low, high, steps).len() ==> distance(
                start,
                (#[trigger] met(start, low, high, steps)[i]) as int,
            ) <= distance(start, (#[trigger] met(start, low, high, steps)[j]) as int),
    decreases steps,
{
    if steps > 0 {
        lemma_distances(start, low, high, steps - 1);
        let rest = met(start, low, high, steps - 1);
        let all = met(start, low, high, steps);
        assert(forall|i: int| 0 <= i < rest.len() ==> #[trigger] all[i] == rest[i]);
        assert(distance(start, candidate(start, steps - 1)) == steps / 2);
        if all.len() > rest.len() {
            assert(all[rest.len() as int] as int == candidate(start, steps - 1));
        }
    }
}

/// The walk goes outwards: no page comes before a nearer one.
pub proof fn law_walk_goes_outwards(start: int, low: int, high: int, i: int, j: int)
    requires
        0 <= low <= start < high <= usize::MAX,
        0 <= i <= j < focus_order(start, low, high).len(),
    ensures
        distance(start, focus_order(start, low, high)[i] as int) <= distance(
            start,
            focus_order(start, low, high)[j] as int,
        ),
        focus_order(start, low, high)[0] == start,
{
    lemma_distances(start, low, high, 2 * (high - low));
    lemma_met_grows(start, low, high, 1, 2 * (high - low));
    assert(met(start, low, high, 0) =~= Seq::empty());
    assert(candidate(start, 0) == start);
    assert(met(start, low, high, 1) =~= seq![start as usize]);
    assert(met(start, low, high, 1)[0] == start as usize);
}

} // verus!

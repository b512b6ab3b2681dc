//! Ranges of integers.

use vstd::prelude::*;

use crate::text::{int_text, push_int};

verus! {

/// The integers `start`, `start + step`, and so on up to `end`.
#[derive(Clone, Copy, Debug, PartialEq, Eq, Structural)]
pub struct IntRange {
    pub start: i64,
    pub end: i64,
    pub step: i64,
}

impl IntRange {
    /// The range holds `end`, and at least one integer.
    pub open spec fn valid(self) -> bool {
        &&& self.step > 0
        &&& self.start <= self.end
        &&& (self.end - self.start) % (self.step as int) == 0
    }

    pub open spec fn count(self) -> nat {
        ((self.end - self.start) / (self.step as int) + 1) as nat
    }

    /// The integers of the range.
    pub open spec fn values(self) -> Seq<int> {
        Seq::new(self.count(), |i: int| self.start + i * self.step)
    }

    /// The text of the range.
    pub open spec fn text(self) -> Seq<char> {
        if self.start == self.end {
            int_text(self.start as int)
        } else if self.step == 1 {
            int_text(self.start as int).push('-') + int_text(self.end as int)
        } else {
            (int_text(self.start as int).push('-') + int_text(self.end as int)).push(':') + int_text(
                self.step as int,
            )
        }
    }
}

/// The integers of consecutive ranges.
pub open spec fn range_values(ranges: Seq<IntRange>) -> Seq<int>
    decreases ranges.len(),
{
    if ranges.len() == 0 {
        seq![]
    } else {
        range_values(ranges.drop_last()) + ranges.last().values()
    }
}

/// The text of consecutive ranges, joined by commas.
pub open spec fn range_text(ranges: Seq<IntRange>) -> Seq<char>
    decreases ranges.len(),
{
    if ranges.len() == 0 {
        seq![]
    } else if ranges.len() == 1 {
        ranges[0].text()
    } else {
        range_text(ranges.drop_last()).push(',') + ranges.last().text()
    }
}

/// A list of integers in the form of ranges.
#[derive(Debug)]
pub struct RangeExpr {
    ranges: Vec<IntRange>,
}

impl View for RangeExpr {
    type V = Seq<IntRange>;

    closed spec fn view(&self) -> Seq<IntRange> {
        self.ranges@
    }
}

pub open spec fn all_valid(ranges: Seq<IntRange>) -> bool {
    forall|i: int| 0 <= i < ranges.len() ==> #[trigger] ranges[i].valid()
}

pub proof fn lemma_range_values_nonempty(ranges: Seq<IntRange>)
    requires
        all_valid(ranges),
    ensures
        range_values(ranges).len() >= ranges.len(),
        ranges.len() > 0 ==> range_values(ranges)[0] == ranges[0].start,
        ranges.len() > 0 ==> range_values(ranges).last() == ranges.last().end,
    decreases ranges.len(),
{
    if ranges.len() > 0 {
        let last = ranges.last();
        assert(all_valid(ranges.drop_last()));
        lemma_range_values_nonempty(ranges.drop_last());
        assert(ranges[ranges.len() - 1].valid());
        let span = last.end - last.start;
        let step = last.step as int;
        vstd::arithmetic::div_mod::lemma_fundamental_div_mod(span, step);
        assert(span / step >= 0) by (nonlinear_arith)
            requires
                span >= 0,
                step > 0,
        ;
        assert((span / step) * step == span) by (nonlinear_arith)
            requires
                span == step * (span / step),
        ;
        assert(last.values().last() == last.start + (span / step) * step);
        assert(last.values()[0] == last.start + 0 * last.step);
    }
}

impl RangeExpr {
    #[verifier::type_invariant]
    spec fn well_formed(self) -> bool {
        all_valid(self.ranges@)
    }

    /// Builds a range expression; `None` where a range is empty, runs
    /// downwards or misses its end.
    pub fn from_ranges(ranges: Vec<IntRange>) -> (r: Option<RangeExpr>)
        ensures
            match r {
                Some(e) => all_valid(ranges@) && e@ == ranges@,
                None => !all_valid(ranges@),
            },
    {
        let mut i: usize = 0;
        while i < ranges.len()
            invariant
                i <= ranges@.len(),
                forall|j: int| 0 <= j < i ==> #[trigger] ranges@[j].valid(),
            decreases ranges@.len() - i,
        {
            let range = ranges[i];
            assert(range == ranges@[i as int]);
            if range.step <= 0 || range.start > range.end {
                assert(!ranges@[i as int].valid());
                return None;
            }
            let span: i128 = range.end as i128 - range.start as i128;
            if span % (range.step as i128) != 0 {
                assert(!ranges@[i as int].valid());
                return None;
            }
            i = i + 1;
        }
        Some(RangeExpr { ranges })
    }

    /// The ranges in order.
    pub fn ranges(&self) -> (r: &Vec<IntRange>)
        ensures
            r@ == self@,
            all_valid(r@),
    {
        proof {
            use_type_invariant(self);
        }
        &self.ranges
    }

    pub fn is_empty(&self) -> (r: bool)
        ensures
            r == (range_values(self@).len() == 0),
    {
        proof {
            use_type_invariant(self);
            lemma_range_values_nonempty(self@);
        }
        self.ranges.len() == 0
    }

    /// The first integer.
    pub fn first(&self) -> (r: Option<i64>)
        ensures
            match r {
                Some(i) => range_values(self@).len() > 0 && i == range_values(self@)[0],
                None => range_values(self@).len() == 0,
            },
    {
        proof {
            use_type_invariant(self);
            lemma_range_values_nonempty(self@);
        }
        if self.ranges.len() == 0 {
            None
        } else {
            Some(self.ranges[0].start)
        }
    }

    /// The last integer.
    pub fn last(&self) -> (r: Option<i64>)
        ensures
            match r {
                Some(i) => range_values(self@).len() > 0 && i == range_values(self@).last(),
                None => range_values(self@).len() == 0,
            },
    {
        proof {
            use_type_invariant(self);
            lemma_range_values_nonempty(self@);
        }
        if self.ranges.len() == 0 {
            None
        } else {
            Some(self.ranges[self.ranges.len() - 1].end)
        }
    }

    /// The number of integers, at most `usize::MAX`.
    pub fn len(&self) -> (r: usize)
        ensures
            r == saturated(range_values(self@).len()),
    {
        proof {
            use_type_invariant(self);
        }
        let mut total: usize = 0;
        let mut i: usize = 0;
        proof {
            assert(self@.take(0) =~= Seq::<IntRange>::empty());
        }
        while i < self.ranges.len()
            invariant
                i <= self.ranges@.len(),
                self@ == self.ranges@,
                all_valid(self@),
                total == saturated(range_values(self@.take(i as int)).len()),
            decreases self.ranges@.len() - i,
        {
            let range = self.ranges[i];
            proof {
                assert(self@[i as int].valid());
                assert(self@.take(i + 1).drop_last() =~= self@.take(i as int));
                let span = range.end - range.start;
                let step = range.step as int;
                vstd::arithmetic::div_mod::lemma_div_is_ordered_by_denominator(span, 1, step);
                vstd::arithmetic::div_mod::lemma_div_pos_is_pos(span, step);
                assert(span / 1 == span);
            }
            let span: i128 = range.end as i128 - range.start as i128;
            let count: i128 = span / (range.step as i128) + 1;
            if count > usize::MAX as i128 {
                total = usize::MAX;
            } else {
                total = total.saturating_add(count as usize);
            }
            i = i + 1;
        }
        proof {
            assert(self@.take(i as int) =~= self@);
        }
        total
    }

    /// Appends the text of the ranges.
    pub fn push_text(&self, out: &mut String)
        ensures
            final(out)@ == old(out)@ + range_text(self@),
    {
        let ghost start = out@;
        let mut i: usize = 0;
        proof {
            assert(self@.take(0) =~= Seq::<IntRange>::empty());
        }
        while i < self.ranges.len()
            invariant
                i <= self.ranges@.len(),
                self@ == self.ranges@,
                out@ == start + range_text(self@.take(i as int)),
            decreases self.ranges@.len() - i,
        {
            proof {
                assert(self@.take(i + 1).drop_last() =~= self@.take(i as int));
            }
            let range = self.ranges[i];
            if i > 0 {
                out.push(',');
            }
            push_int(out, range.start);
            if range.start != range.end {
                out.push('-');
                push_int(out, range.end);
                if range.step != 1 {
                    out.push(':');
                    push_int(out, range.step);
                }
            }
            i = i + 1;
        }
        proof {
            assert(self@.take(i as int) =~= self@);
        }
    }
}

impl Clone for RangeExpr {
    fn clone(&self) -> (r: RangeExpr)
        ensures
            r@ == self@,
    {
        proof {
            use_type_invariant(self);
        }
        let mut ranges: Vec<IntRange> = Vec::new();
        let mut i: usize = 0;
        while i < self.ranges.len()
            invariant
                i <= self.ranges@.len(),
                ranges@ == self.ranges@.take(i as int),
            decreases self.ranges@.len() - i,
        {
            ranges.push(self.ranges[i]);
            i = i + 1;
        }
        proof {
            assert(self.ranges@.take(i as int) =~= self.ranges@);
        }
        RangeExpr { ranges }
    }
}

/// A count in machine size: the largest size where it does not fit.
pub open spec fn saturated(n: nat) -> nat {
    if n > usize::MAX {
        usize::MAX as nat
    } else {
        n
    }
}

} // verus!

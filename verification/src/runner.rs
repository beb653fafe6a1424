use vstd::prelude::*;

use crate::submission_state::flag_bit;
use crate::submission_state::SubmissionStateSingle;
use crate::summary::CaseSummary;

verus! {

/// The bounded-concurrency gate: the decision core of the scheduler's
/// counting semaphore. A case may enter its execution phase only through
/// `try_acquire`, and leaves it through `release`, so no more than `limit`
/// cases are ever in flight at once. The async runtime's own semaphore
/// performs the blocking at run time; this type states and proves the
/// bound that discipline maintains, and only tests drive it directly.
#[derive(Debug, Clone, PartialEq)]
pub struct Gate {
    pub limit: usize,
    pub in_flight: usize,
}

impl Gate {
    /// The concurrency bound: never more cases in flight than the limit.
    pub open spec fn wf(self) -> bool {
        self.in_flight <= self.limit
    }

    /// A gate with no case in flight.
    pub fn new(limit: usize) -> (r: Gate)
        ensures
            r.limit == limit,
            r.in_flight == 0,
            r.wf(),
    {
        Gate { limit, in_flight: 0 }
    }

    /// Admits one case when a slot is free, and says whether it did; the
    /// bound holds afterwards in either outcome.
    pub fn try_acquire(&mut self) -> (r: bool)
        requires
            old(self).wf(),
        ensures
            final(self).limit == old(self).limit,
            r == (old(self).in_flight < old(self).limit),
            r ==> final(self).in_flight == old(self).in_flight + 1,
            !r ==> final(self).in_flight == old(self).in_flight,
            final(self).wf(),
    {
        if self.in_flight < self.limit {
            self.in_flight = self.in_flight + 1;
            true
        } else {
            false
        }
    }

    /// Returns one case's slot; the bound keeps holding.
    pub fn release(&mut self)
        requires
            old(self).in_flight > 0,
        ensures
            final(self).limit == old(self).limit,
            final(self).in_flight == old(self).in_flight - 1,
            old(self).wf() ==> final(self).wf(),
    {
        self.in_flight = self.in_flight - 1;
    }
}

/// Folding a sequence of parsed readings into the four combined outcome
/// components: the status union and the three metric maxima.
pub open spec fn merge_fold(
    state: u32,
    time: int,
    score: int,
    rate: int,
    s: Seq<CaseSummary>,
) -> (u32, int, int, int)
    decreases s.len(),
{
    if s.len() == 0 {
        (state, time, score, rate)
    } else {
        merge_fold(
            state | s.first().state,
            if s.first().time > time {
                s.first().time as int
            } else {
                time
            },
            if s.first().score > score {
                s.first().score as int
            } else {
                score
            },
            if s.first().rate > rate {
                s.first().rate as int
            } else {
                rate
            },
            s.drop_first(),
        )
    }
}

/// One case's final outcome: success or infrastructure-error from the
/// transport, merged with every parsed reading of its collected files — the
/// statuses united, each metric keeping its largest value.
pub fn case_outcome(casename: &str, transport_ok: bool, parsed: &Vec<CaseSummary>) -> (r:
    CaseSummary)
    ensures
        r.name@ == casename@,
        ({
            let start = if transport_ok {
                0u32
            } else {
                flag_bit(SubmissionStateSingle::IE)
            };
            let (st, t, sc, ra) = merge_fold(start, 0, 0, 0, parsed@);
            r.state == st && r.time == t && r.score == sc && r.rate == ra
        }),
{
    let start: u32 = if transport_ok {
        0
    } else {
        SubmissionStateSingle::IE.bit()
    };
    let mut acc = CaseSummary::zero(casename, start);
    let mut i: usize = 0;
    proof {
        assert(parsed@.skip(0) =~= parsed@);
    }
    while i < parsed.len()
        invariant
            i <= parsed@.len(),
            acc.name@ == casename@,
            merge_fold(acc.state, acc.time as int, acc.score as int, acc.rate as int, parsed@.skip(i as int))
                == merge_fold(
                if transport_ok {
                    0u32
                } else {
                    flag_bit(SubmissionStateSingle::IE)
                },
                0,
                0,
                0,
                parsed@,
            ),
        decreases parsed@.len() - i,
    {
        proof {
            assert(parsed@.skip(i as int).first() == parsed@[i as int]);
            assert(parsed@.skip(i as int).drop_first() =~= parsed@.skip(i + 1));
        }
        acc = acc.merge(&parsed[i]);
        i += 1;
    }
    proof {
        assert(parsed@.skip(parsed@.len() as int) =~= Seq::<CaseSummary>::empty());
    }
    acc
}

} // verus!

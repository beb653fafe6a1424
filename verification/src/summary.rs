use vstd::prelude::*;

use crate::config::Config;
use crate::matching::regex_capture_groups;
use crate::matching::regex_captures_of;
use crate::matching::regex_valid;
use crate::submission_state::parse_state;
use crate::submission_state::parse_state_spec;
use crate::submission_state::SubmissionState;

verus! {

/// Elapsed time of one case, in integral time units.
pub type Time = i64;

/// Score of one case, in integral points.
pub type Score = i64;

/// Success rate of one case, in integral rate units.
pub type Rate = i64;

/// The classified outcome of one case: its status mask and its three
/// best-effort numeric metrics, all zero until overwritten by parsing.
#[derive(Debug, Clone, PartialEq)]
pub struct CaseSummary {
    pub name: String,
    pub state: SubmissionState,
    pub time: Time,
    pub score: Score,
    pub rate: Rate,
}

impl CaseSummary {
    /// The outcome of a case of which nothing has been parsed yet: the given
    /// status and all metrics zero.
    pub fn zero(name: &str, state: SubmissionState) -> (r: CaseSummary)
        ensures
            r.name@ == name@,
            r.state == state,
            r.time == 0,
            r.score == 0,
            r.rate == 0,
    {
        CaseSummary { name: String::from_str(name), state, time: 0, score: 0, rate: 0 }
    }

    /// Joins a second reading of the same case into this one: the statuses
    /// are united, each metric keeps the larger value, the name is kept.
    pub fn merge(&self, other: &CaseSummary) -> (r: CaseSummary)
        ensures
            r.name@ == self.name@,
            r.state == self.state | other.state,
            r.time == if self.time >= other.time { self.time } else { other.time },
            r.score == if self.score >= other.score { self.score } else { other.score },
            r.rate == if self.rate >= other.rate { self.rate } else { other.rate },
    {
        CaseSummary {
            name: self.name.clone(),
            state: self.state | other.state,
            time: if self.time >= other.time { self.time } else { other.time },
            score: if self.score >= other.score { self.score } else { other.score },
            rate: if self.rate >= other.rate { self.rate } else { other.rate },
        }
    }
}

/// The run-level aggregate of all case outcomes folded so far.
#[derive(Debug, Clone, PartialEq)]
pub struct FinalSummary {
    pub subm_id: u32,
    pub state: SubmissionState,
    pub time: Time,
    pub scores: Vec<Score>,
    pub rates: Vec<Rate>,
    pub count: usize,
    pub ac_count: usize,
}

/// The order-independent part of the aggregate: the united status mask, the
/// worst time, the case count, and the success count.
pub struct AggCore {
    pub state: u32,
    pub time: int,
    pub count: nat,
    pub ac_count: nat,
}

/// The order-independent part of an aggregate value.
pub open spec fn core_of(s: FinalSummary) -> AggCore {
    AggCore {
        state: s.state,
        time: s.time as int,
        count: s.count as nat,
        ac_count: s.ac_count as nat,
    }
}

/// One fold step on the order-independent part: the outcome's bits join the
/// mask, the time maximum and the counts are updated.
pub open spec fn step_core(c: AggCore, o: CaseSummary) -> AggCore {
    AggCore {
        state: c.state | o.state,
        time: if o.time > c.time { o.time as int } else { c.time },
        count: c.count + 1,
        ac_count: c.ac_count + (if o.state == 0 { 1nat } else { 0nat }),
    }
}

/// The order-independent part of folding a whole sequence of outcomes, in
/// sequence order.
pub open spec fn fold_core(init: AggCore, s: Seq<CaseSummary>) -> AggCore
    decreases s.len(),
{
    if s.len() == 0 {
        init
    } else {
        fold_core(step_core(init, s.first()), s.drop_first())
    }
}

impl FinalSummary {
    /// The aggregate's well-formedness: one score and one rate per counted
    /// case, and no more successes than cases.
    pub open spec fn wf(self) -> bool {
        &&& self.scores@.len() == self.count
        &&& self.rates@.len() == self.count
        &&& self.ac_count <= self.count
    }

    /// The aggregate of a run of which no case has completed: success status
    /// and every statistic empty or zero.
    pub fn zero(subm_id: u32) -> (r: FinalSummary)
        ensures
            r.subm_id == subm_id,
            r.state == 0,
            r.time == 0,
            r.scores@ == Seq::<Score>::empty(),
            r.rates@ == Seq::<Rate>::empty(),
            r.count == 0,
            r.ac_count == 0,
            r.wf(),
    {
        FinalSummary {
            subm_id,
            state: 0,
            time: 0,
            scores: Vec::new(),
            rates: Vec::new(),
            count: 0,
            ac_count: 0,
        }
    }

    /// Folds one more completed case into the aggregate: the status mask
    /// gains the case's bits and never loses any, the worst time is kept,
    /// the score and rate are appended, the count rises by one, and the
    /// success count rises exactly when the case succeeded.
    pub fn next_case(&self, case: &CaseSummary) -> (r: FinalSummary)
        requires
            self.count < usize::MAX,
            self.wf(),
        ensures
            r.subm_id == self.subm_id,
            r.scores@ == self.scores@.push(case.score),
            r.rates@ == self.rates@.push(case.rate),
            core_of(r) == step_core(core_of(*self), *case),
            r.wf(),
    {
        let mut scores = self.scores.clone();
        scores.push(case.score);
        let mut rates = self.rates.clone();
        rates.push(case.rate);
        let r = FinalSummary {
            subm_id: self.subm_id,
            state: self.state | case.state,
            time: if case.time > self.time { case.time } else { self.time },
            scores,
            rates,
            count: self.count + 1,
            ac_count: self.ac_count + (if case.state == 0 { 1 } else { 0 }),
        };
        r
    }
}

/// Two fold steps commute on the order-independent part.
proof fn lemma_step_core_commutes(c: AggCore, x: CaseSummary, y: CaseSummary)
    ensures
        step_core(step_core(c, x), y) == step_core(step_core(c, y), x),
{
    assert(forall|a: u32, b: u32, m: u32| (m | a) | b == (m | b) | a) by (bit_vector);
}

/// Folding is unchanged when the outcome at one position is applied first.
proof fn lemma_fold_core_pull(init: AggCore, s: Seq<CaseSummary>, i: int)
    requires
        0 <= i < s.len(),
    ensures
        fold_core(init, s) == fold_core(step_core(init, s[i]), s.remove(i)),
    decreases i,
{
    if i == 0 {
        assert(s.remove(0) =~= s.drop_first());
    } else {
        let rest = s.drop_first();
        lemma_fold_core_pull(step_core(init, s.first()), rest, i - 1);
        assert(rest[i - 1] == s[i]);
        lemma_step_core_commutes(init, s.first(), s[i]);
        assert(s.remove(i).first() == s.first());
        assert(s.remove(i).drop_first() =~= rest.remove(i - 1));
    }
}

/// Law: folding outcomes is invariant to their order in the four
/// order-independent components — the status union, the time maximum, the
/// case count and the success count. Two runs over the same outcomes in any
/// two orders fold to the same aggregate core.
pub proof fn lemma_fold_core_permutation(init: AggCore, s1: Seq<CaseSummary>, s2: Seq<CaseSummary>)
    requires
        s1.to_multiset() == s2.to_multiset(),
    ensures
        fold_core(init, s1) == fold_core(init, s2),
    decreases s1.len(),
{
    broadcast use vstd::seq_lib::group_to_multiset_ensures;

    s1.to_multiset_ensures();
    s2.to_multiset_ensures();
    if s1.len() == 0 {
        assert(s2.to_multiset().len() == 0);
        assert(s2.len() == 0);
    } else {
        let a = s1.first();
        assert(s1.contains(a));
        assert(s1.to_multiset().count(a) > 0);
        assert(s2.to_multiset().count(a) > 0);
        assert(s2.contains(a));
        let i = choose|i: int| 0 <= i < s2.len() && s2[i] == a;
        assert(s1.remove(0).to_multiset() =~= s1.to_multiset().remove(a));
        assert(s2.remove(i).to_multiset() =~= s2.to_multiset().remove(a));
        assert(s1.remove(0) =~= s1.drop_first());
        lemma_fold_core_permutation(step_core(init, a), s1.drop_first(), s2.remove(i));
        lemma_fold_core_pull(init, s2, i);
    }
}

/// Law: no case is dropped and none is counted twice — folding a sequence
/// of outcomes raises the case count by exactly the sequence's length, and
/// the success count by at most that much.
pub proof fn lemma_fold_core_counts(init: AggCore, s: Seq<CaseSummary>)
    ensures
        fold_core(init, s).count == init.count + s.len(),
        fold_core(init, s).ac_count <= init.ac_count + s.len(),
        fold_core(init, s).ac_count >= init.ac_count,
    decreases s.len(),
{
    if s.len() > 0 {
        lemma_fold_core_counts(step_core(init, s.first()), s.drop_first());
    }
}

/// The fold only ever adds status bits: what the initial mask holds, the
/// folded mask still holds.
proof fn lemma_fold_core_monotone(init: AggCore, s: Seq<CaseSummary>)
    ensures
        fold_core(init, s).state & init.state == init.state,
    decreases s.len(),
{
    assert(forall|m: u32, x: u32| (m | x) & m == m) by (bit_vector);
    assert(forall|a: u32, b: u32, c: u32| b & a == a && c & b == b ==> c & a == a) by (bit_vector);
    if s.len() == 0 {
        assert(forall|a: u32| a & a == a) by (bit_vector);
    } else {
        lemma_fold_core_monotone(step_core(init, s.first()), s.drop_first());
    }
}

/// Law: the folded aggregate's status bit set is a superset of every folded
/// outcome's bit set.
pub proof fn lemma_fold_core_superset(init: AggCore, s: Seq<CaseSummary>, i: int)
    requires
        0 <= i < s.len(),
    ensures
        fold_core(init, s).state & s[i].state == s[i].state,
    decreases s.len(),
{
    if i == 0 {
        lemma_fold_core_monotone(step_core(init, s.first()), s.drop_first());
        assert(forall|m: u32, x: u32| (m | x) & x == x) by (bit_vector);
        assert(forall|a: u32, b: u32, c: u32| b & a == a && c & b == b ==> c & a == a) by (
        bit_vector);
    } else {
        lemma_fold_core_superset(step_core(init, s.first()), s.drop_first(), i - 1);
        assert(s.drop_first()[i - 1] == s[i]);
    }
}

/// The sequence's values in ascending order.
pub open spec fn sorted_version(s: Seq<i64>) -> Seq<i64> {
    s.sort_by(|a: i64, b: i64| a <= b)
}

/// The middle of two values: their sum halved, rounded toward zero.
pub open spec fn mid_avg(a: int, b: int) -> int {
    if a + b >= 0 {
        (a + b) / 2
    } else {
        -((-(a + b)) / 2)
    }
}

/// The median of the values: zero for the empty sequence, the middle value
/// in ascending order for odd length, the mean of the two central values for
/// even length.
pub open spec fn median_spec(s: Seq<i64>) -> int {
    if s.len() == 0 {
        0
    } else {
        let t = sorted_version(s);
        if s.len() % 2 == 1 {
            t[s.len() as int / 2] as int
        } else {
            mid_avg(t[s.len() as int / 2] as int, t[s.len() as int / 2 - 1] as int)
        }
    }
}

/// The least value, zero when there are none.
pub open spec fn min_or_0_spec(s: Seq<i64>) -> int
    decreases s.len(),
{
    if s.len() == 0 {
        0
    } else if s.len() == 1 {
        s[0] as int
    } else {
        let rest = min_or_0_spec(s.drop_last());
        if (s.last() as int) < rest {
            s.last() as int
        } else {
            rest
        }
    }
}

/// The greatest value, zero when there are none.
pub open spec fn max_or_0_spec(s: Seq<i64>) -> int
    decreases s.len(),
{
    if s.len() == 0 {
        0
    } else if s.len() == 1 {
        s[0] as int
    } else {
        let rest = max_or_0_spec(s.drop_last());
        if (s.last() as int) > rest {
            s.last() as int
        } else {
            rest
        }
    }
}

/// The least of the values, zero when there are none.
pub fn min_or_0(src: &[i64]) -> (r: i64)
    ensures
        r == min_or_0_spec(src@),
{
    let mut r: i64 = 0;
    let mut i: usize = 0;
    proof {
        assert(src@.take(0) =~= Seq::<i64>::empty());
    }
    while i < src.len()
        invariant
            i <= src@.len(),
            r == min_or_0_spec(src@.take(i as int)),
        decreases src@.len() - i,
    {
        proof {
            assert(src@.take(i + 1).drop_last() =~= src@.take(i as int));
            assert(src@.take(i + 1).last() == src@[i as int]);
        }
        if i == 0 || src[i] < r {
            r = src[i];
        }
        i += 1;
    }
    proof {
        assert(src@.take(src@.len() as int) =~= src@);
    }
    r
}

/// The greatest of the values, zero when there are none.
pub fn max_or_0(src: &[i64]) -> (r: i64)
    ensures
        r == max_or_0_spec(src@),
{
    let mut r: i64 = 0;
    let mut i: usize = 0;
    proof {
        assert(src@.take(0) =~= Seq::<i64>::empty());
    }
    while i < src.len()
        invariant
            i <= src@.len(),
            r == max_or_0_spec(src@.take(i as int)),
        decreases src@.len() - i,
    {
        proof {
            assert(src@.take(i + 1).drop_last() =~= src@.take(i as int));
            assert(src@.take(i + 1).last() == src@[i as int]);
        }
        if i == 0 || src[i] > r {
            r = src[i];
        }
        i += 1;
    }
    proof {
        assert(src@.take(src@.len() as int) =~= src@);
    }
    r
}

/// Law: the median is a statistic of the values alone, not of the order
/// the cases completed in — two sequences holding the same values in any
/// two orders have the same median.
pub proof fn lemma_median_order_independent(s1: Seq<i64>, s2: Seq<i64>)
    requires
        s1.to_multiset() == s2.to_multiset(),
    ensures
        median_spec(s1) == median_spec(s2),
{
    broadcast use vstd::seq_lib::group_to_multiset_ensures;

    let leq = |a: i64, b: i64| a <= b;
    s1.to_multiset_ensures();
    s2.to_multiset_ensures();
    assert(s1.len() == s2.len());
    s1.lemma_sort_by_ensures(leq);
    s2.lemma_sort_by_ensures(leq);
    assert(vstd::relations::total_ordering(leq));
    vstd::seq_lib::lemma_sorted_unique(s1.sort_by(leq), s2.sort_by(leq), leq);
    assert(sorted_version(s1) == sorted_version(s2));
}

/// A copy of the values in ascending order.
fn sorted_copy(src: &[i64]) -> (r: Vec<i64>)
    ensures
        r@ == sorted_version(src@),
        r@.len() == src@.len(),
{
    let ghost leq = |a: i64, b: i64| a <= b;
    let mut r: Vec<i64> = Vec::new();
    let mut i: usize = 0;
    proof {
        assert(r@ =~= src@.take(0));
        assert(forall|a: i64, b: i64| #[trigger] leq(a, b) == (a <= b));
    }
    while i < src.len()
        invariant
            i <= src@.len(),
            r@.len() == i,
            forall|a: i64, b: i64| #[trigger] leq(a, b) == (a <= b),
            vstd::relations::sorted_by(r@, leq),
            r@.to_multiset() == src@.take(i as int).to_multiset(),
        decreases src@.len() - i,
    {
        let x = src[i];
        let mut j: usize = 0;
        while j < r.len() && r[j] <= x
            invariant
                j <= r@.len(),
                forall|k: int| 0 <= k < j ==> r@[k] <= x,
            decreases r@.len() - j,
        {
            j += 1;
        }
        let ghost old_r = r@;
        r.insert(j, x);
        proof {
            broadcast use vstd::seq_lib::group_to_multiset_ensures;

            assert(forall|m: int| 0 <= m < j ==> r@[m] == old_r[m]);
            assert(r@[j as int] == x);
            assert(forall|m: int| j < m < r@.len() ==> r@[m] == old_r[m - 1]);
            assert forall|m: int, n: int| 0 <= m < n < r@.len() implies leq(r@[m], r@[n]) by {
                if n < j {
                    assert(leq(old_r[m], old_r[n]));
                } else if m < j && n == j {
                    assert(old_r[m] <= x);
                } else if m < j && n > j {
                    assert(leq(old_r[m], old_r[n - 1]));
                } else if m == j {
                    assert((j as int) < old_r.len() && x < old_r[j as int]);
                    assert(leq(old_r[j as int], old_r[n - 1]));
                } else {
                    assert(leq(old_r[m - 1], old_r[n - 1]));
                }
            }
            assert(vstd::relations::sorted_by(r@, leq));
            vstd::seq_lib::to_multiset_insert(old_r, j as int, x);
            assert(src@.take(i as int + 1) =~= src@.take(i as int).push(src@[i as int]));
            assert(r@.to_multiset() =~= src@.take(i as int + 1).to_multiset());
        }
        i += 1;
    }
    proof {
        assert(src@.take(src@.len() as int) =~= src@);
        src@.lemma_sort_by_ensures(leq);
        assert(vstd::relations::total_ordering(leq));
        vstd::seq_lib::lemma_sorted_unique(r@, src@.sort_by(leq), leq);
        assert(src@.sort_by(leq) == sorted_version(src@));
    }
    r
}

/// The median of the values, zero when there are none: the middle value in
/// ascending order, or, for an even count, the mean of the two central
/// values rounded toward zero.
pub fn median_or_0(src: &[i64]) -> (r: i64)
    ensures
        r == median_spec(src@),
{
    let sorted = sorted_copy(src);
    let len = sorted.len();
    if len == 0 {
        0
    } else if len % 2 == 1 {
        sorted[len / 2]
    } else {
        let a = sorted[len / 2];
        let b = sorted[len / 2 - 1];
        let s: i128 = a as i128 + b as i128;
        let m: i128 = if s >= 0 {
            ((s as u128) / 2) as i128
        } else {
            -((((-s) as u128) / 2) as i128)
        };
        proof {
            assert(m == mid_avg(a as int, b as int));
            assert(i64::MIN <= m <= i64::MAX);
        }
        m as i64
    }
}

/// Whether the character is a decimal digit.
pub open spec fn is_digit_char(c: char) -> bool {
    48 <= c as int <= 57
}

/// The numeric value of a digit sequence, most significant digit first.
pub open spec fn digits_val(s: Seq<char>) -> int
    decreases s.len(),
{
    if s.len() == 0 {
        0
    } else {
        digits_val(s.drop_last()) * 10 + (s.last() as int - 48)
    }
}

/// Whether the text is an optionally signed decimal integer.
pub open spec fn is_int_string(s: Seq<char>) -> bool {
    if s.len() == 0 {
        false
    } else if s[0] == '-' {
        s.len() > 1 && (forall|k: int| 1 <= k < s.len() ==> is_digit_char(s[k]))
    } else {
        forall|k: int| 0 <= k < s.len() ==> is_digit_char(s[k])
    }
}

/// The value of an optionally signed decimal integer text.
pub open spec fn int_str_val(s: Seq<char>) -> int {
    if s.len() > 0 && s[0] == '-' {
        -digits_val(s.skip(1))
    } else {
        digits_val(s)
    }
}

/// A digit sequence's value is not negative.
proof fn lemma_digits_val_nonneg(s: Seq<char>)
    requires
        forall|k: int| 0 <= k < s.len() ==> is_digit_char(s[k]),
    ensures
        digits_val(s) >= 0,
    decreases s.len(),
{
    if s.len() > 0 {
        lemma_digits_val_nonneg(s.drop_last());
    }
}

/// A digit sequence's value only grows when digits are appended.
proof fn lemma_digits_val_prefix_le(s: Seq<char>, j: int)
    requires
        forall|k: int| 0 <= k < s.len() ==> is_digit_char(s[k]),
        0 <= j <= s.len(),
    ensures
        digits_val(s.take(j)) <= digits_val(s),
    decreases s.len() - j,
{
    if j == s.len() {
        assert(s.take(j) =~= s);
    } else {
        assert(s.take(j + 1).drop_last() =~= s.take(j));
        assert(forall|k: int| 0 <= k < j ==> is_digit_char(s.take(j)[k]));
        lemma_digits_val_nonneg(s.take(j));
        assert(digits_val(s.take(j + 1)) == digits_val(s.take(j)) * 10 + (s[j] as int - 48));
        lemma_digits_val_prefix_le(s, j + 1);
    }
}

/// Reads an optionally signed decimal integer. Yields the value exactly
/// when the text is such an integer and the value fits; nothing otherwise.
pub fn parse_i64(s: &str) -> (r: Option<i64>)
    ensures
        r is Some ==> is_int_string(s@) && i64::MIN <= int_str_val(s@) <= i64::MAX && r->0
            == int_str_val(s@),
        r is None ==> !is_int_string(s@) || int_str_val(s@) < i64::MIN || int_str_val(s@)
            > i64::MAX,
{
    let n = s.unicode_len();
    if n == 0 {
        return None;
    }
    let neg = s.get_char(0) == '-';
    let start: usize = if neg {
        1
    } else {
        0
    };
    if start == n {
        return None;
    }
    let ghost t = s@.skip(start as int);
    let mut mag: u64 = 0;
    let mut i: usize = start;
    proof {
        assert(t.take(0) =~= Seq::<char>::empty());
    }
    while i < n
        invariant
            start <= i <= n,
            n == s@.len(),
            start == 1 ==> n >= 2 && s@[0] == '-',
            start == 0 || start == 1,
            neg == (s@[0] == '-'),
            start == (if neg { 1int } else { 0int }),
            t == s@.skip(start as int),
            forall|k: int| 0 <= k < i - start ==> is_digit_char(t[k]),
            mag == digits_val(t.take(i - start)),
        decreases n - i,
    {
        let c = s.get_char(i);
        let d = c as u32;
        if d < 48 || d > 57 {
            proof {
                assert(t[i - start] == s@[i as int]);
                assert(!is_digit_char(s@[i as int]));
                assert(!is_int_string(s@));
            }
            return None;
        }
        if mag > 1844674407370955160 {
            proof {
                if is_int_string(s@) {
                    assert forall|k: int| 0 <= k < t.len() implies is_digit_char(t[k]) by {
                        assert(t[k] == s@[k + start]);
                    }
                    assert(t.take(i - start + 1).drop_last() =~= t.take(i - start));
                    assert(t.take(i - start + 1).last() == t[i - start]);
                    lemma_digits_val_nonneg(t.take(i - start + 1));
                    assert(digits_val(t.take(i - start + 1)) >= mag * 10);
                    lemma_digits_val_prefix_le(t, i - start + 1);
                    assert(digits_val(t) > 9223372036854775808);
                    if neg {
                        assert(t =~= s@.skip(1));
                        assert(int_str_val(s@) == -digits_val(t));
                    } else {
                        assert(t =~= s@);
                        assert(int_str_val(s@) == digits_val(t));
                    }
                    assert(int_str_val(s@) < i64::MIN || int_str_val(s@) > i64::MAX);
                }
            }
            return None;
        }
        mag = mag * 10 + ((d - 48) as u64);
        proof {
            assert(t.take(i - start + 1).drop_last() =~= t.take(i - start));
            assert(t.take(i - start + 1).last() == t[i - start]);
            assert(t[i - start] == s@[i as int]);
        }
        i += 1;
    }
    proof {
        assert(t.take(n - start) =~= t);
        assert forall|k: int| start <= k < s@.len() implies is_digit_char(s@[k]) by {
            assert(s@[k] == t[k - start]);
        }
        assert(is_int_string(s@));
        if neg {
            assert(t =~= s@.skip(1));
            assert(int_str_val(s@) == -digits_val(t));
        } else {
            assert(t =~= s@);
            assert(int_str_val(s@) == digits_val(t));
        }
    }
    if neg {
        if mag > 9223372036854775808 {
            None
        } else if mag == 9223372036854775808 {
            Some(i64::MIN)
        } else {
            Some(-(mag as i64))
        }
    } else {
        if mag > 9223372036854775807 {
            None
        } else {
            Some(mag as i64)
        }
    }
}

/// The value one capture group contributes: its text read as an integer
/// when the group participated, the text is integral, and the value fits.
pub open spec fn group_val(g: Option<Seq<char>>) -> Option<int> {
    match g {
        Some(t) => if is_int_string(t) && i64::MIN <= int_str_val(t) <= i64::MAX {
            Some(int_str_val(t))
        } else {
            None
        },
        None => None,
    }
}

/// The greatest contributed value among the capture groups, if any group
/// contributes one.
pub open spec fn max_group_val(gs: Seq<Option<Seq<char>>>) -> Option<int>
    decreases gs.len(),
{
    if gs.len() == 0 {
        None
    } else {
        let rest = max_group_val(gs.drop_last());
        match (rest, group_val(gs.last())) {
            (Some(a), Some(b)) => Some(if b > a { b } else { a }),
            (Some(a), None) => Some(a),
            (None, b) => b,
        }
    }
}

/// The product, clamped into the i64 range.
pub open spec fn scale_sat(v: int, m: int) -> int {
    let p = v * m;
    if p > i64::MAX {
        i64::MAX as int
    } else if p < i64::MIN {
        i64::MIN as int
    } else {
        p
    }
}

/// The metric a pattern with a scale factor extracts from text: the
/// greatest integer among the capture groups of all its matches, scaled
/// and clamped; zero when the pattern is invalid, does not match, or no
/// group contributes a value.
pub open spec fn metric_spec(pattern: Seq<char>, multiplier: int, text: Seq<char>) -> int {
    if regex_valid(pattern) && regex_captures_of(pattern, text) is Some {
        match max_group_val(regex_captures_of(pattern, text)->0) {
            Some(v) => scale_sat(v, multiplier),
            None => 0,
        }
    } else {
        0
    }
}

/// Extracts one numeric metric from the text: the greatest integer among
/// the capture groups of all the pattern's matches, scaled. Nothing when
/// the pattern is invalid or does not match; callers then fall back to
/// zero.
pub fn parse_metric(pattern: &str, multiplier: i64, text: &str) -> (r: Option<i64>)
    ensures
        r is Some ==> r->0 == metric_spec(pattern@, multiplier as int, text@),
        r is None ==> metric_spec(pattern@, multiplier as int, text@) == 0,
        regex_valid(pattern@) ==> ((r is Some) <==> regex_captures_of(pattern@, text@) is Some),
{
    let groups = match regex_capture_groups(pattern, text) {
        Some(g) => g,
        None => return None,
    };
    let ghost gs: Seq<Option<Seq<char>>> = groups.deep_view();
    let mut best: Option<i64> = None;
    let mut k: usize = 0;
    proof {
        assert(gs.take(0) =~= Seq::<Option<Seq<char>>>::empty());
    }
    while k < groups.len()
        invariant
            k <= groups@.len(),
            gs == groups.deep_view(),
            gs.len() == groups@.len(),
            match best {
                None => max_group_val(gs.take(k as int)) is None,
                Some(v) => max_group_val(gs.take(k as int)) == Some(v as int),
            },
        decreases groups@.len() - k,
    {
        proof {
            assert(gs.take(k + 1).drop_last() =~= gs.take(k as int));
            assert(gs.take(k + 1).last() == gs[k as int]);
        }
        match &groups[k] {
            Some(g) => {
                proof {
                    assert(gs[k as int] == Some(g@));
                }
                match parse_i64(g.as_str()) {
                    Some(v) => {
                        best = match best {
                            None => Some(v),
                            Some(b) => if v > b {
                                Some(v)
                            } else {
                                Some(b)
                            },
                        };
                    },
                    None => {
                        proof {
                            assert(group_val(gs[k as int]) is None);
                        }
                    },
                }
            },
            None => {
                proof {
                    assert(gs[k as int] is None);
                }
            },
        }
        k += 1;
    }
    proof {
        assert(gs.take(groups@.len() as int) =~= gs);
    }
    match best {
        None => Some(0),
        Some(v) => {
            proof {
                assert((v as int) * (multiplier as int) <= 0x8000000000000000 * 0x8000000000000000
                    && (v as int) * (multiplier as int) >= -(0x8000000000000000
                    * 0x8000000000000000)) by (nonlinear_arith)
                    requires
                        -0x8000000000000000 <= v as int <= 0x7fffffffffffffff,
                        -0x8000000000000000 <= multiplier as int <= 0x7fffffffffffffff,
                ;
            }
            let p: i128 = (v as i128) * (multiplier as i128);
            if p > 9223372036854775807i128 {
                Some(9223372036854775807i64)
            } else if p < -9223372036854775808i128 {
                Some(i64::MIN)
            } else {
                Some(p as i64)
            }
        },
    }
}

/// One collected text parsed into a case outcome: the status mask from the
/// configured patterns, and each metric best-effort — zero where its
/// pattern is invalid or does not match. Nothing when a status pattern that
/// had to be consulted does not compile.
pub fn parse_text(name: &str, text: &str, config: &Config) -> (r: Option<CaseSummary>)
    ensures
        (r is Some) == (parse_state_spec(text@, config.parse_result) is Some),
        r is Some ==> r->0.name@ == name@ && r->0.state == parse_state_spec(
            text@,
            config.parse_result,
        )->0 && r->0.time == metric_spec(
            config.parse_result.time_regex@,
            config.parse_result.time_multiplier as int,
            text@,
        ) && r->0.score == metric_spec(
            config.parse_result.score_regex@,
            config.parse_result.score_multiplier as int,
            text@,
        ) && r->0.rate == metric_spec(
            config.parse_result.rate_regex@,
            config.parse_result.rate_multiplier as int,
            text@,
        ),
{
    let state = match parse_state(text, config) {
        Some(s) => s,
        None => return None,
    };
    let time = match parse_metric(
        config.parse_result.time_regex.as_str(),
        config.parse_result.time_multiplier,
        text,
    ) {
        Some(v) => v,
        None => 0,
    };
    let score = match parse_metric(
        config.parse_result.score_regex.as_str(),
        config.parse_result.score_multiplier,
        text,
    ) {
        Some(v) => v,
        None => 0,
    };
    let rate = match parse_metric(
        config.parse_result.rate_regex.as_str(),
        config.parse_result.rate_multiplier,
        text,
    ) {
        Some(v) => v,
        None => 0,
    };
    Some(CaseSummary { name: String::from_str(name), state, time, score, rate })
}

} // verus!

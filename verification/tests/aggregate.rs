use dual_judge::comma_sep_int;
use dual_judge::runner::{case_outcome, Gate};
use dual_judge::summary::{max_or_0, median_or_0, min_or_0, CaseSummary, FinalSummary};

fn outcome(name: &str, state: u32, time: i64, score: i64, rate: i64) -> CaseSummary {
    let mut c = CaseSummary::zero(name, state);
    c.time = time;
    c.score = score;
    c.rate = rate;
    c
}

#[test]
fn fold_accumulates() {
    let s0 = FinalSummary::zero(7);
    assert_eq!(s0.subm_id, 7);
    assert_eq!(s0.state, 0);
    assert_eq!(s0.count, 0);
    let s1 = s0.next_case(&outcome("a", 0, 120, 500, 90));
    let s2 = s1.next_case(&outcome("b", 4, 340, 200, 40));
    let s3 = s2.next_case(&outcome("c", 2, 90, 800, 70));
    assert_eq!(s3.state, 4 | 2);
    assert_eq!(s3.time, 340);
    assert_eq!(s3.count, 3);
    assert_eq!(s3.ac_count, 1);
    assert_eq!(s3.scores, vec![500, 200, 800]);
    assert_eq!(s3.rates, vec![90, 40, 70]);
}

#[test]
fn fold_is_order_independent_in_the_core() {
    // The same outcomes in two different orders: same status union, same
    // worst time, same counts. Only the diagnostic score/rate sequences
    // reflect the order.
    let a = outcome("a", 0, 120, 500, 90);
    let b = outcome("b", 4, 340, 200, 40);
    let c = outcome("c", 2, 90, 800, 70);
    let one = FinalSummary::zero(1).next_case(&a).next_case(&b).next_case(&c);
    let two = FinalSummary::zero(1).next_case(&c).next_case(&b).next_case(&a);
    assert_eq!(one.state, two.state);
    assert_eq!(one.time, two.time);
    assert_eq!(one.count, two.count);
    assert_eq!(one.ac_count, two.ac_count);
}

#[test]
fn fold_status_is_a_superset_of_each_outcome() {
    let outcomes = [
        outcome("a", 128, 0, 0, 0),
        outcome("b", 4 | 2, 0, 0, 0),
        outcome("c", 1, 0, 0, 0),
    ];
    let mut s = FinalSummary::zero(1);
    for o in &outcomes {
        s = s.next_case(o);
    }
    for o in &outcomes {
        assert_eq!(s.state & o.state, o.state);
    }
}

#[test]
fn merge_unites_and_maximizes() {
    let a = outcome("x", 4, 100, 700, 20);
    let b = outcome("ignored", 2, 250, 300, 80);
    let m = a.merge(&b);
    assert_eq!(m.name, "x");
    assert_eq!(m.state, 4 | 2);
    assert_eq!(m.time, 250);
    assert_eq!(m.score, 700);
    assert_eq!(m.rate, 80);
}

#[test]
fn median_of_two() {
    assert_eq!(median_or_0(&[10, 20]), 15);
}

#[test]
fn median_of_three() {
    assert_eq!(median_or_0(&[10, 20, 30]), 20);
    // Order of the input does not matter.
    assert_eq!(median_or_0(&[30, 10, 20]), 20);
}

#[test]
fn median_of_none() {
    assert_eq!(median_or_0(&[]), 0);
}

#[test]
fn median_edges() {
    assert_eq!(median_or_0(&[42]), 42);
    assert_eq!(median_or_0(&[4, 1, 3, 2]), 2);
    // The mean of the two central values rounds toward zero.
    assert_eq!(median_or_0(&[-3, -4]), -3);
}

#[test]
fn gate_bounds_concurrency() {
    // Five cases against a parallelism limit of two: at no point are more
    // than two slots handed out.
    let mut gate = Gate::new(2);
    let mut running: usize = 0;
    let mut launched: usize = 0;
    let mut peak: usize = 0;
    while launched < 5 {
        if gate.try_acquire() {
            running += 1;
            launched += 1;
            if running > peak {
                peak = running;
            }
            assert!(gate.in_flight <= gate.limit);
        } else {
            // No slot free: one running case finishes and releases.
            assert_eq!(running, 2);
            gate.release();
            running -= 1;
        }
    }
    while running > 0 {
        gate.release();
        running -= 1;
    }
    assert_eq!(peak, 2);
    assert_eq!(gate.in_flight, 0);
}

#[test]
fn case_outcome_success_scenario() {
    // One case whose only reading carries a score line and no failure
    // text: status stays the success value and the score is kept.
    let parsed = vec![outcome("c1", 0, 0, 1234, 0)];
    let o = case_outcome("c1", true, &parsed);
    assert_eq!(o.state, 0);
    assert_eq!(o.score, 1234);
    let s = FinalSummary::zero(1).next_case(&o);
    assert_eq!(s.count, 1);
    assert_eq!(s.ac_count, 1);
}

#[test]
fn case_outcome_staging_failure_scenario() {
    // A case whose staging failed: no readings, transport not ok. The
    // outcome is the infrastructure-error status and the run still counts
    // the case.
    let o = case_outcome("broken", false, &vec![]);
    assert_eq!(o.state, 128);
    assert_eq!(o.time, 0);
    let s = FinalSummary::zero(1).next_case(&o);
    assert_eq!(s.count, 1);
    assert_eq!(s.ac_count, 0);
    assert_eq!(s.state, 128);
}

#[test]
fn extrema() {
    assert_eq!(min_or_0(&[]), 0);
    assert_eq!(max_or_0(&[]), 0);
    assert_eq!(min_or_0(&[5, -2, 9]), -2);
    assert_eq!(max_or_0(&[5, -2, 9]), 9);
    assert_eq!(min_or_0(&[7]), 7);
    assert_eq!(max_or_0(&[7]), 7);
}

#[test]
fn comma_grouping() {
    assert_eq!(comma_sep_int(0), "0");
    assert_eq!(comma_sep_int(1), "1");
    assert_eq!(comma_sep_int(999), "999");
    assert_eq!(comma_sep_int(1000), "1,000");
    assert_eq!(comma_sep_int(1234567), "1,234,567");
    assert_eq!(comma_sep_int(-1234567), "-1,234,567");
}

#[test]
fn comma_grouping_counts_the_sign() {
    // The separator scan counts the leading minus sign like any other
    // character.
    assert_eq!(comma_sep_int(-123), "-,123");
}

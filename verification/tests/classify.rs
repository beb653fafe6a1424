use dual_judge::config::{Config, LambdaConfig, LocalConfig, ParseResultConfig};
use dual_judge::submission_state::{parse_state, SubmissionStateSingle};
use dual_judge::summary::{parse_i64, parse_metric, parse_text};

fn test_config() -> Config {
    Config {
        subm_id: 1,
        case_dir: String::from("cases"),
        allow_non_ac: 0,
        local: LocalConfig {
            pre: None,
            parallel: 2,
            send: vec![],
            collect: vec![],
            post: None,
        },
        lambda: LambdaConfig {
            pre: None,
            parallel: 2,
            function_name: String::from("judge"),
            send: vec![],
            collect: vec![],
            post: None,
        },
        parse_result: ParseResultConfig {
            files: vec![String::from("start_out.txt")],
            time_regex: String::from(r"time: ([0-9]+) ms"),
            time_multiplier: 1,
            score_regex: String::from(r"score: (-?[0-9]+)"),
            score_multiplier: 1,
            rate_regex: String::from(r"rate: ([0-9]+)"),
            rate_multiplier: 1,
            force_ac_regex: String::from("FORCED PASS"),
            ie_regex: String::from(r"\[IE\]"),
            ce_regex: String::from("compile error"),
            re_regex: String::from("runtime error"),
            qle_regex: String::from("query limit"),
            ole_regex: String::from("output limit"),
            wa_regex: String::from("wrong answer"),
            tle_regex: String::from("time limit"),
            mle_regex: String::from("memory limit"),
        },
    }
}

#[test]
fn success_on_clean_text() {
    let cfg = test_config();
    assert_eq!(parse_state("all good here", &cfg), Some(0));
}

#[test]
fn force_success_beats_failures() {
    // The force-success pattern short-circuits every failure pattern.
    let cfg = test_config();
    let text = "wrong answer, time limit, FORCED PASS";
    assert_eq!(parse_state(text, &cfg), Some(0));
}

#[test]
fn single_flags() {
    let cfg = test_config();
    assert_eq!(parse_state("[IE] staging failed", &cfg), Some(128));
    assert_eq!(parse_state("compile error", &cfg), Some(64));
    assert_eq!(parse_state("runtime error", &cfg), Some(32));
    assert_eq!(parse_state("query limit", &cfg), Some(16));
    assert_eq!(parse_state("output limit", &cfg), Some(8));
    assert_eq!(parse_state("wrong answer", &cfg), Some(4));
    assert_eq!(parse_state("time limit", &cfg), Some(2));
    assert_eq!(parse_state("memory limit", &cfg), Some(1));
}

#[test]
fn multi_flag_independence() {
    // Both the time-limit and the wrong-answer bits are set at once, and
    // the single display label is WA, which precedes TLE in display order.
    let cfg = test_config();
    let state = parse_state("time limit and wrong answer", &cfg).unwrap();
    assert_eq!(state, 4 | 2);
    assert_eq!(SubmissionStateSingle::from_state(state), Some(SubmissionStateSingle::WA));
}

#[test]
fn display_order_differs_from_bit_order() {
    // QLE owns a higher bit than OLE and WA, yet both display before it.
    assert_eq!(
        SubmissionStateSingle::from_state(16 | 8),
        Some(SubmissionStateSingle::OLE)
    );
    assert_eq!(
        SubmissionStateSingle::from_state(16 | 4),
        Some(SubmissionStateSingle::WA)
    );
}

#[test]
fn dominant_label_edges() {
    assert_eq!(SubmissionStateSingle::from_state(0), Some(SubmissionStateSingle::AC));
    assert_eq!(SubmissionStateSingle::from_state(256), None);
    assert_eq!(
        SubmissionStateSingle::from_state(256 | 4),
        Some(SubmissionStateSingle::WA)
    );
    assert_eq!(SubmissionStateSingle::AC.label(), "AC");
    assert_eq!(SubmissionStateSingle::WA.label(), "WA");
}

#[test]
fn invalid_pattern_yields_nothing() {
    let mut cfg = test_config();
    cfg.parse_result.wa_regex = String::from("(unclosed");
    assert_eq!(parse_state("anything", &cfg), None);
}

#[test]
fn invalid_force_pattern_yields_nothing() {
    let mut cfg = test_config();
    cfg.parse_result.force_ac_regex = String::from("(unclosed");
    assert_eq!(parse_state("anything", &cfg), None);
}

#[test]
fn parse_i64_values() {
    assert_eq!(parse_i64("0"), Some(0));
    assert_eq!(parse_i64("1234"), Some(1234));
    assert_eq!(parse_i64("-45"), Some(-45));
    assert_eq!(parse_i64("007"), Some(7));
    assert_eq!(parse_i64("9223372036854775807"), Some(i64::MAX));
    assert_eq!(parse_i64("-9223372036854775808"), Some(i64::MIN));
}

#[test]
fn parse_i64_rejections() {
    assert_eq!(parse_i64(""), None);
    assert_eq!(parse_i64("-"), None);
    assert_eq!(parse_i64("12a"), None);
    assert_eq!(parse_i64("1.5"), None);
    assert_eq!(parse_i64("9223372036854775808"), None);
    assert_eq!(parse_i64("-9223372036854775809"), None);
    assert_eq!(parse_i64("99999999999999999999999999"), None);
}

#[test]
fn metric_takes_maximum_group() {
    // Among one match's groups the greatest parsed value wins.
    let v = parse_metric(r"t=([0-9]+)/([0-9]+)", 1, "t=12/34");
    assert_eq!(v, Some(34));
}

#[test]
fn metric_takes_maximum_over_matches() {
    // The maximum ranges over every match of the pattern, not only the
    // leftmost one.
    let v = parse_metric(r"t=([0-9]+)/([0-9]+)", 1, "t=12/34 t=99/1");
    assert_eq!(v, Some(99));
}

#[test]
fn metric_scales_and_clamps() {
    assert_eq!(parse_metric(r"s=([0-9]+)", 1000, "s=25"), Some(25_000));
    // The scaled product saturates at the i64 bounds.
    assert_eq!(
        parse_metric(r"s=([0-9]+)", i64::MAX, "s=3"),
        Some(i64::MAX)
    );
    assert_eq!(
        parse_metric(r"s=(-[0-9]+)", i64::MAX, "s=-3"),
        Some(i64::MIN)
    );
}

#[test]
fn metric_without_match_is_none() {
    assert_eq!(parse_metric(r"s=([0-9]+)", 1, "nothing here"), None);
    assert_eq!(parse_metric(r"(unclosed", 1, "anything"), None);
}

#[test]
fn parse_text_reads_all_fields() {
    let cfg = test_config();
    let text = "time: 250 ms\nscore: 1234\nrate: 98";
    let s = parse_text("case1", text, &cfg).unwrap();
    assert_eq!(s.name, "case1");
    assert_eq!(s.state, 0);
    assert_eq!(s.time, 250);
    assert_eq!(s.score, 1234);
    assert_eq!(s.rate, 98);
}

#[test]
fn parse_text_metrics_default_to_zero() {
    let cfg = test_config();
    let s = parse_text("case1", "wrong answer", &cfg).unwrap();
    assert_eq!(s.state, 4);
    assert_eq!(s.time, 0);
    assert_eq!(s.score, 0);
    assert_eq!(s.rate, 0);
}

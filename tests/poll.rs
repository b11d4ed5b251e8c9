use poll_decay::aggregate::{calc_result, Vote};
use poll_decay::decay::{eval_formula, get_melting_rate, get_result_interval, WEIGHT_UNIT};
use poll_decay::pipeline::computer;
use poll_decay::sampler::{calc_transition, PollError, Request, Theme};

fn vote(theme_id: u64, answer: u64, created_at: u64, expired_at: u64) -> Vote {
    Vote { theme_id, answer, created_at, expired_at }
}

fn theme(theme_id: u64, n: usize, dr_class: u64) -> Theme {
    let choices = (0..n).map(|i| format!("choice {}", i)).collect();
    Theme { theme_id, choices, dr_class }
}

#[test]
fn melting_rate_table() {
    assert_eq!(get_melting_rate(1), 2_400_000);
    assert_eq!(get_melting_rate(2), 7_200_000);
    assert_eq!(get_melting_rate(3), 21_600_000);
    assert_eq!(get_melting_rate(4), 64_800_000);
    assert_eq!(get_melting_rate(0), 194_400_000);
    assert_eq!(get_melting_rate(5), 194_400_000);
}

#[test]
fn result_interval_table() {
    assert_eq!(get_result_interval(1), 400_000);
    assert_eq!(get_result_interval(2), 1_200_000);
    assert_eq!(get_result_interval(3), 3_600_000);
    assert_eq!(get_result_interval(4), 10_800_000);
    assert_eq!(get_result_interval(9), 32_400_000);
}

#[test]
fn weight_steps_down_with_age() {
    assert_eq!(eval_formula(0, 2_400_000), WEIGHT_UNIT);
    assert_eq!(eval_formula(2_399_999, 2_400_000), WEIGHT_UNIT);
    // k = 1: 9 / 10
    assert_eq!(eval_formula(2_400_000, 2_400_000), 900_000_000_000);
    // k = 2: 13 / 17
    assert_eq!(eval_formula(4_800_000, 2_400_000), 764_705_882_352);
    let mut prev = WEIGHT_UNIT;
    for k in 0..200u64 {
        let w = eval_formula(k * 2_400_000, 2_400_000);
        assert!(w <= prev);
        prev = w;
    }
    assert!(prev < WEIGHT_UNIT / 40);
}

#[test]
fn weight_vanishes_for_ancient_votes() {
    assert_eq!(eval_formula(u64::MAX, 1), 0);
}

#[test]
fn single_fresh_vote_takes_everything() {
    let votes = vec![vote(1, 0, 0, 0)];
    assert_eq!(calc_result(0, 2_400_000, 1, &votes), vec![Some(1_000_000)]);
    assert_eq!(calc_result(0, 2_400_000, 3, &votes), vec![Some(1_000_000), Some(0), Some(0)]);
}

#[test]
fn one_period_old_vote_still_takes_everything() {
    let votes = vec![vote(1, 0, 0, 0)];
    assert_eq!(calc_result(2_400_000, 2_400_000, 2, &votes), vec![Some(1_000_000), Some(0)]);
}

#[test]
fn older_vote_weighs_less() {
    let votes = vec![vote(1, 0, 2_400_000, 0), vote(1, 1, 0, 0)];
    // weights 1 and 0.9
    assert_eq!(calc_result(2_400_000, 2_400_000, 2, &votes), vec![Some(526_316), Some(473_684)]);
}

#[test]
fn shares_add_up_to_whole_within_rounding() {
    let votes = vec![vote(1, 0, 0, 0), vote(1, 1, 0, 0), vote(1, 2, 0, 0)];
    let r = calc_result(0, 2_400_000, 3, &votes);
    assert_eq!(r, vec![Some(333_333), Some(333_333), Some(333_333)]);
    let total: u64 = r.iter().map(|x| x.unwrap()).sum();
    assert!(total.abs_diff(1_000_000) <= 1);
}

#[test]
fn no_votes_give_undefined_shares() {
    let votes: Vec<Vote> = Vec::new();
    assert_eq!(calc_result(10, 2_400_000, 2, &votes), vec![None, None]);
}

#[test]
fn future_vote_is_ignored() {
    let base = vec![vote(1, 0, 0, 0)];
    let with_future = vec![vote(1, 0, 0, 0), vote(1, 1, 101, 0)];
    assert_eq!(calc_result(100, 2_400_000, 2, &with_future), calc_result(100, 2_400_000, 2, &base));
    assert_eq!(calc_result(100, 2_400_000, 2, &with_future), vec![Some(1_000_000), Some(0)]);
}

#[test]
fn expired_vote_is_ignored() {
    let votes = vec![vote(1, 0, 0, 0), vote(1, 1, 0, 100)];
    assert_eq!(calc_result(100, 2_400_000, 2, &votes), vec![Some(1_000_000), Some(0)]);
    assert_eq!(calc_result(99, 2_400_000, 2, &votes), vec![Some(500_000), Some(500_000)]);
}

#[test]
fn unexpiring_vote_counts_much_later() {
    let votes = vec![vote(1, 1, 0, 0)];
    assert_eq!(calc_result(1_000_000_000_000, 2_400_000, 2, &votes), vec![Some(0), Some(1_000_000)]);
}

#[test]
fn answer_outside_choices_adds_nothing_to_shares() {
    let votes = vec![vote(1, 0, 0, 0), vote(1, 5, 0, 0)];
    assert_eq!(calc_result(0, 2_400_000, 2, &votes), vec![Some(1_000_000), Some(0)]);
}

#[test]
fn series_have_sixty_samples_even_without_votes() {
    let votes: Vec<Vote> = Vec::new();
    let (short, long) = calc_transition(1_000_000_000, &theme(1, 3, 1), &votes).unwrap();
    assert_eq!(short.len(), 60);
    assert_eq!(long.len(), 60);
    for t in short.iter().chain(long.iter()) {
        assert_eq!(t.percentage, vec![None, None, None]);
    }
}

#[test]
fn series_sample_spacing() {
    let votes = vec![vote(1, 0, 0, 0)];
    let (short, long) = calc_transition(1_000_000_000, &theme(1, 2, 1), &votes).unwrap();
    assert_eq!(short[0].timestamp, 1_000_000_000);
    assert_eq!(short[1].timestamp, 1_000_000_000 - 400_000);
    assert_eq!(short[59].timestamp, 1_000_000_000 - 59 * 400_000);
    assert_eq!(long[1].timestamp, 1_000_000_000 - 24 * 400_000);
    assert_eq!(long[59].timestamp, 1_000_000_000 - 59 * 24 * 400_000);
    assert_eq!(short[0], long[0]);
}

#[test]
fn series_before_start_of_time_stay_at_zero() {
    let votes = vec![vote(1, 0, 0, 0)];
    let (short, long) = calc_transition(0, &theme(1, 2, 1), &votes).unwrap();
    for t in short.iter().chain(long.iter()) {
        assert_eq!(t.timestamp, 0);
        assert_eq!(t.percentage, vec![Some(1_000_000), Some(0)]);
    }
}

#[test]
fn series_follow_votes_over_time() {
    // choice 1 gets its vote half way back in the short window
    let votes = vec![vote(1, 0, 0, 0), vote(1, 1, 1_000_000_000 - 10 * 400_000, 0), vote(2, 1, 0, 0)];
    let (short, _) = calc_transition(1_000_000_000, &theme(1, 2, 1), &votes).unwrap();
    assert_eq!(short[11].percentage, vec![Some(1_000_000), Some(0)]);
    assert_eq!(short[10].percentage[1].is_some(), true);
    assert!(short[10].percentage[1].unwrap() > 0);
}

#[test]
fn votes_of_other_themes_do_not_count() {
    let votes = vec![vote(1, 0, 0, 0), vote(2, 1, 0, 0)];
    let (short, _) = calc_transition(5, &theme(1, 2, 1), &votes).unwrap();
    assert_eq!(short[0].percentage, vec![Some(1_000_000), Some(0)]);
}

#[test]
fn vote_for_missing_choice_is_refused() {
    let votes = vec![vote(7, 2, 0, 0)];
    let r = calc_transition(5, &theme(7, 2, 1), &votes);
    assert_eq!(r.err(), Some(PollError::AnswerOutOfRange { theme_id: 7 }));
}

#[test]
fn batch_keeps_theme_order() {
    let request = Request {
        themes: vec![theme(2, 2, 2), theme(1, 1, 1)],
        votes: vec![vote(1, 0, 0, 0), vote(2, 1, 0, 0), vote(2, 0, 0, 0)],
    };
    let rs = computer(&request, 1_000).unwrap();
    assert_eq!(rs.len(), 2);
    assert_eq!(rs[0].theme_id, 2);
    assert_eq!(rs[0].percentage, vec![Some(500_000), Some(500_000)]);
    assert_eq!(rs[1].theme_id, 1);
    assert_eq!(rs[1].percentage, vec![Some(1_000_000)]);
    for r in rs.iter() {
        assert_eq!(r.percentage, r.short_transition[0].percentage);
        assert_eq!(r.short_transition[0], r.long_transition[0]);
        assert_eq!(r.short_transition.len(), 60);
        assert_eq!(r.long_transition.len(), 60);
    }
}

#[test]
fn batch_reports_first_faulty_theme() {
    let request = Request {
        themes: vec![theme(1, 2, 1), theme(2, 1, 1), theme(3, 1, 1)],
        votes: vec![vote(3, 4, 0, 0), vote(2, 1, 0, 0)],
    };
    assert_eq!(computer(&request, 10).err(), Some(PollError::AnswerOutOfRange { theme_id: 2 }));
}

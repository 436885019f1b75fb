use random_walk_game::{
    play_sample, run, run_trial, ConfigError, DrawSource, Game, Rate, Report, Tally, DRAW_SCALE,
};

fn always_leader() -> Game {
    Game { middle_levels_count: 1, actions: vec![1], probability_of_go_from_center: DRAW_SCALE / 10 }
}

fn always_follower() -> Game {
    Game { middle_levels_count: 1, actions: vec![2], probability_of_go_from_center: DRAW_SCALE }
}

/// One draw decides each game: the Leader wins on a draw above one half.
fn coin() -> Game {
    Game { middle_levels_count: 1, actions: vec![2], probability_of_go_from_center: DRAW_SCALE / 2 }
}

const LEADER: u64 = DRAW_SCALE - 1;
const FOLLOWER: u64 = 0;

fn percent(wins: usize, games: usize) -> u64 {
    Rate { wins, games }.percent()
}

#[test]
fn percent_rounds_to_the_nearest_whole_number() {
    assert_eq!(percent(0, 7), 0);
    assert_eq!(percent(7, 7), 100);
    assert_eq!(percent(1, 2), 50);
    assert_eq!(percent(1, 3), 33);
    assert_eq!(percent(2, 3), 67);
    assert_eq!(percent(1, 7), 14);
    assert_eq!(percent(4986, 5000), 100);
    assert_eq!(percent(4974, 5000), 99);
}

#[test]
fn percent_rounds_a_half_upwards() {
    assert_eq!(percent(1, 8), 13);
    assert_eq!(percent(3, 8), 38);
    assert_eq!(percent(1, 200), 1);
    assert_eq!(percent(29, 200), 15);
    assert_eq!(percent(4975, 5000), 100);
    assert_eq!(percent(199, 200), 100);
}

#[test]
fn percent_of_a_rate_above_one() {
    assert_eq!(percent(2, 1), 200);
    assert_eq!(percent(3, 2), 150);
}

#[test]
fn percent_of_the_largest_sample() {
    assert_eq!(percent(usize::MAX, usize::MAX), 100);
    assert_eq!(percent(0, usize::MAX), 0);
}

#[test]
fn rates_are_measured_against_half_and_whole() {
    let tally = Tally { sample_size: 10, first_half_wins: 2, second_half_wins: 5 };
    assert_eq!(tally.first_half_rate(), Rate { wins: 2, games: 5 });
    assert_eq!(tally.second_half_rate(), Rate { wins: 5, games: 5 });
    assert_eq!(tally.whole_rate(), Rate { wins: 7, games: 10 });
}

#[test]
fn rates_of_an_even_sample_are_at_most_one() {
    for first in 0..=3usize {
        for second in 0..=3usize {
            let tally = Tally { sample_size: 6, first_half_wins: first, second_half_wins: second };
            for rate in [tally.first_half_rate(), tally.second_half_rate(), tally.whole_rate()] {
                assert!(rate.games > 0 && rate.wins <= rate.games);
            }
        }
    }
}

#[test]
fn second_half_rate_of_an_odd_sample_can_exceed_one() {
    let tally = Tally { sample_size: 3, first_half_wins: 1, second_half_wins: 2 };
    assert_eq!(tally.first_half_rate(), Rate { wins: 1, games: 1 });
    assert_eq!(tally.second_half_rate(), Rate { wins: 2, games: 1 });
    assert_eq!(tally.whole_rate(), Rate { wins: 3, games: 3 });
    assert_eq!(tally.verdict(), None);
}

#[test]
fn verdict_reports_where_the_three_rates_agree() {
    let tally = Tally { sample_size: 10, first_half_wins: 2, second_half_wins: 2 };
    assert_eq!(
        tally.verdict(),
        Some(Report { leader_percent: 40, follower_percent: 60, sample_size: 10 })
    );
    let tally = Tally { sample_size: 10_000, first_half_wins: 4986, second_half_wins: 4990 };
    assert_eq!(
        tally.verdict(),
        Some(Report { leader_percent: 100, follower_percent: 0, sample_size: 10_000 })
    );
    let tally = Tally { sample_size: 2, first_half_wins: 0, second_half_wins: 0 };
    assert_eq!(
        tally.verdict(),
        Some(Report { leader_percent: 0, follower_percent: 100, sample_size: 2 })
    );
}

#[test]
fn verdict_is_none_where_a_rate_differs() {
    let tally = Tally { sample_size: 10, first_half_wins: 2, second_half_wins: 3 };
    assert_eq!(tally.verdict(), None);
    // 33, 33 and 29 percent: the odd game counts in the whole only
    let tally = Tally { sample_size: 7, first_half_wins: 1, second_half_wins: 1 };
    assert_eq!(tally.verdict(), None);
    // 19.4 and 20.4 percent round apart
    let tally = Tally { sample_size: 1000, first_half_wins: 97, second_half_wins: 102 };
    assert_eq!(tally.verdict(), None);
}

#[test]
fn verdict_percents_add_up_to_one_hundred() {
    for first in 0..=4usize {
        for second in 0..=4usize {
            let tally = Tally { sample_size: 8, first_half_wins: first, second_half_wins: second };
            if let Some(report) = tally.verdict() {
                assert_eq!(report.leader_percent + report.follower_percent, 100);
                assert_eq!(first, second);
            }
        }
    }
}

#[test]
fn sample_counts_wins_by_halves() {
    let mut source = DrawSource::repeating(vec![LEADER, LEADER, FOLLOWER, LEADER, FOLLOWER, FOLLOWER])
        .unwrap();
    let tally = play_sample(&coin(), 6, &mut source);
    assert_eq!(tally, Tally { sample_size: 6, first_half_wins: 2, second_half_wins: 1 });
    // the next sample goes on where this one stopped: the script starts over
    let tally = play_sample(&coin(), 4, &mut source);
    assert_eq!(tally, Tally { sample_size: 4, first_half_wins: 2, second_half_wins: 1 });
}

#[test]
fn sample_of_odd_size_puts_the_odd_game_in_the_second_half() {
    let mut source = DrawSource::entropy();
    let tally = play_sample(&always_leader(), 5, &mut source);
    assert_eq!(tally, Tally { sample_size: 5, first_half_wins: 2, second_half_wins: 3 });
    let tally = play_sample(&always_follower(), 5, &mut source);
    assert_eq!(tally, Tally { sample_size: 5, first_half_wins: 0, second_half_wins: 0 });
}

#[test]
fn trial_refuses_a_sample_without_halves() {
    let mut source = DrawSource::repeating(vec![3, 4]).unwrap();
    assert_eq!(run_trial(&coin(), 1, &mut source), Err(ConfigError::SampleTooSmall));
    assert_eq!(run_trial(&coin(), 0, &mut source), Err(ConfigError::SampleTooSmall));
    // no game was played
    assert_eq!(source.next_draw(), 3);
}

#[test]
fn trial_of_two_games_is_played() {
    let mut source = DrawSource::repeating(vec![FOLLOWER, LEADER]).unwrap();
    assert_eq!(
        run_trial(&coin(), 2, &mut source),
        Ok(Tally { sample_size: 2, first_half_wins: 0, second_half_wins: 1 })
    );
}

#[test]
fn run_refuses_a_sample_size_of_one() {
    let mut source = DrawSource::entropy();
    assert_eq!(run(&always_leader(), &vec![1], &mut source), Err(ConfigError::SampleTooSmall));
}

#[test]
fn run_refuses_a_small_candidate_before_any_game() {
    let mut source = DrawSource::repeating(vec![LEADER, FOLLOWER]).unwrap();
    assert_eq!(run(&coin(), &vec![4, 0], &mut source), Err(ConfigError::SampleTooSmall));
    assert_eq!(source.next_draw(), LEADER);
}

#[test]
fn run_refuses_a_malformed_configuration() {
    let mut source = DrawSource::entropy();
    let sizes = vec![10];
    let mut game = always_leader();
    game.middle_levels_count = 0;
    assert_eq!(run(&game, &sizes, &mut source), Err(ConfigError::NoMiddleLevels));
    game.middle_levels_count = usize::MAX;
    assert_eq!(run(&game, &sizes, &mut source), Err(ConfigError::TooManyLevels));
    game.middle_levels_count = 1;
    game.probability_of_go_from_center = DRAW_SCALE + 1;
    assert_eq!(run(&game, &sizes, &mut source), Err(ConfigError::ProbabilityOutOfRange));
    game.probability_of_go_from_center = DRAW_SCALE;
    game.actions = Vec::new();
    assert_eq!(run(&game, &sizes, &mut source), Err(ConfigError::NoActions));
    // the configuration is named before the sample size
    assert_eq!(run(&game, &vec![1], &mut source), Err(ConfigError::NoActions));
}

#[test]
fn run_without_candidates_finds_nothing() {
    let mut source = DrawSource::entropy();
    assert_eq!(run(&always_leader(), &Vec::new(), &mut source), Ok(None));
}

#[test]
fn run_reports_a_sure_leader() {
    let mut source = DrawSource::entropy();
    assert_eq!(
        run(&always_leader(), &vec![10], &mut source),
        Ok(Some(Report { leader_percent: 100, follower_percent: 0, sample_size: 10 }))
    );
}

#[test]
fn run_reports_a_sure_follower() {
    let mut source = DrawSource::entropy();
    assert_eq!(
        run(&always_follower(), &vec![7, 10], &mut source),
        Ok(Some(Report { leader_percent: 0, follower_percent: 100, sample_size: 7 }))
    );
}

#[test]
fn run_goes_on_to_the_next_candidate() {
    // three sure wins give 100, 200 and 100 percent: no agreement at size 3
    let mut source = DrawSource::entropy();
    assert_eq!(run(&always_leader(), &vec![3], &mut source), Ok(None));
    assert_eq!(
        run(&always_leader(), &vec![3, 5, 4, 6], &mut source),
        Ok(Some(Report { leader_percent: 100, follower_percent: 0, sample_size: 4 }))
    );
}

#[test]
fn run_reads_the_script_across_samples() {
    // size 6 reads F L L F F L: 67 and 33 percent; size 4 then reads L F F L
    let mut source = DrawSource::repeating(vec![FOLLOWER, LEADER, LEADER, FOLLOWER]).unwrap();
    assert_eq!(
        run(&coin(), &vec![6, 4], &mut source),
        Ok(Some(Report { leader_percent: 50, follower_percent: 50, sample_size: 4 }))
    );
    assert_eq!(source.next_draw(), LEADER);
    assert_eq!(source.next_draw(), FOLLOWER);
}

#[test]
fn run_is_the_same_on_the_same_script() {
    let game = Game {
        middle_levels_count: 3,
        actions: vec![4, -3, 6],
        probability_of_go_from_center: DRAW_SCALE / 3,
    };
    let draws: Vec<u64> = (0..97u64).map(|i| (i * 2_654_435_761 * 1_000_003) % DRAW_SCALE).collect();
    let sizes = vec![11, 20, 50, 200];
    let first = run(&game, &sizes, &mut DrawSource::repeating(draws.clone()).unwrap());
    assert!(first.is_ok());
    for _ in 0..5 {
        assert_eq!(run(&game, &sizes, &mut DrawSource::repeating(draws.clone()).unwrap()), first);
    }
}

#[test]
fn run_on_entropy_reports_complementary_percents() {
    let game = Game {
        middle_levels_count: 3,
        actions: vec![25],
        probability_of_go_from_center: DRAW_SCALE / 10,
    };
    let mut source = DrawSource::entropy();
    let found = run(&game, &vec![10_000], &mut source).unwrap();
    if let Some(report) = found {
        assert_eq!(report.sample_size, 10_000);
        assert!(report.leader_percent <= 100);
        assert_eq!(report.leader_percent + report.follower_percent, 100);
    }
}

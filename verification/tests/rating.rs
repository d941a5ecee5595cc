use erps::model::ScoreInfo;
use erps::rating::{apply_delta, gain, team_delta, team_mean, update, K_FACTOR};

fn elo(gap: i64) -> i64 {
    let expected = 1.0 / (1.0 + 10f64.powf(gap as f64 / 400.0));
    (K_FACTOR as f64 * (1.0 - expected)).round() as i64
}

#[test]
fn gain_is_the_rounded_elo_formula() {
    for gap in -3000..=3000 {
        assert_eq!(gain(gap), elo(gap), "gap {}", gap);
    }
}

#[test]
fn gain_between_equals_is_half_the_stake() {
    assert_eq!(gain(0), 16);
}

#[test]
fn gain_at_the_ends() {
    assert_eq!(gain(i64::MIN), 0);
    assert_eq!(gain(-720), 0);
    assert_eq!(gain(-719), 1);
    assert_eq!(gain(719), 31);
    assert_eq!(gain(720), 32);
    assert_eq!(gain(i64::MAX), 32);
}

#[test]
fn underdog_win_pays_twenty_four() {
    let (a, b) = update(&vec![1000], &vec![1200], true);
    assert_eq!(a, vec![24]);
    assert_eq!(b, vec![-24]);
}

#[test]
fn favourite_win_pays_eight() {
    let (a, b) = update(&vec![1000], &vec![1200], false);
    assert_eq!(a, vec![-8]);
    assert_eq!(b, vec![8]);
}

#[test]
fn every_member_of_a_team_moves_alike() {
    let (a, b) = update(&vec![900, 1100, 1000], &vec![1300, 1200, 1100], true);
    assert_eq!(a, vec![24, 24, 24]);
    assert_eq!(b, vec![-24, -24, -24]);
}

#[test]
fn changes_add_up_to_zero() {
    let teams = [
        (vec![1000u32, 1500, 20], vec![0u32, 3000, 1700]),
        (vec![1], vec![4000]),
        (vec![1234, 1234], vec![1234, 1235]),
    ];
    for (a, b) in teams.iter() {
        for won in [true, false] {
            let (da, db) = update(a, b, won);
            assert_eq!(da.iter().sum::<i64>() + db.iter().sum::<i64>(), 0);
        }
    }
}

#[test]
fn update_is_deterministic() {
    let a = vec![1010, 990];
    let b = vec![1500, 700];
    assert_eq!(update(&a, &b, true), update(&a, &b, true));
}

#[test]
fn team_mean_rounds_down_and_knows_the_empty_team() {
    assert_eq!(team_mean(&vec![1000, 1001]), 1000);
    assert_eq!(team_mean(&vec![u32::MAX, u32::MAX]), u32::MAX);
    assert_eq!(team_mean(&vec![]), 0);
    assert_eq!(team_delta(&vec![], &vec![], true), 16);
}

#[test]
fn ratings_never_go_below_zero() {
    assert_eq!(apply_delta(10, -24), 0);
    assert_eq!(apply_delta(24, -24), 0);
    assert_eq!(apply_delta(1000, 24), 1024);
    assert_eq!(apply_delta(u32::MAX, 5), u32::MAX);
}

#[test]
fn settle_counts_wins_and_losses() {
    let s = ScoreInfo::fresh();
    assert_eq!(s, ScoreInfo { score: 1000, wins: 0, losses: 0 });
    assert_eq!(s.settle(16, true), ScoreInfo { score: 1016, wins: 1, losses: 0 });
    assert_eq!(s.settle(-16, false), ScoreInfo { score: 984, wins: 0, losses: 1 });
    let full = ScoreInfo { score: 5, wins: u32::MAX, losses: u32::MAX };
    assert_eq!(full.settle(-32, true), ScoreInfo { score: 0, wins: u32::MAX, losses: u32::MAX });
}

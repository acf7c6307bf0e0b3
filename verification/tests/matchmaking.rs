use matchmaker::error::Error;
use matchmaker::matchmaking::{balance, balance_with};
use matchmaker::rating::Rating;

fn players(means: &[i64]) -> Vec<(char, Rating)> {
    means
        .iter()
        .enumerate()
        .map(|(i, m)| ((b'A' + i as u8) as char, Rating::new(*m, 100)))
        .collect()
}

fn names(team: &[(char, Rating)]) -> String {
    team.iter().map(|p| p.0).collect()
}

fn sum(team: &[(char, Rating)]) -> i64 {
    team.iter().map(|p| p.1.mean).sum()
}

// The least imbalance over every way to mark half of the players.
fn least_gap(means: &[i64]) -> i64 {
    let n = means.len();
    let total: i64 = means.iter().sum();
    let mut best = i64::MAX;
    for mask in 0u32..(1 << n) {
        if mask.count_ones() as usize != n / 2 {
            continue;
        }
        let picked: i64 = (0..n).filter(|i| mask & (1 << i) != 0).map(|i| means[i]).sum();
        best = best.min((total - 2 * picked).abs());
    }
    best
}

#[test]
fn fewer_than_two_players_cannot_be_split() {
    assert!(matches!(balance_with(&players(&[]), false), Err(Error::InsufficientPlayers)));
    assert!(matches!(balance_with(&players(&[5]), true), Err(Error::InsufficientPlayers)));
    assert!(matches!(balance(&players(&[5])), Err(Error::InsufficientPlayers)));
}

#[test]
fn two_players_face_each_other() {
    let [a, b] = balance_with(&players(&[10, 30]), false).unwrap();
    assert_eq!(names(&a), "A");
    assert_eq!(names(&b), "B");
    let [a, b] = balance_with(&players(&[10, 30]), true).unwrap();
    assert_eq!(names(&a), "B");
    assert_eq!(names(&b), "A");
}

#[test]
fn equal_players_are_split_evenly() {
    let [a, b] = balance_with(&players(&[100, 100, 100, 100]), false).unwrap();
    assert_eq!(a.len(), 2);
    assert_eq!(b.len(), 2);
    assert_eq!(sum(&a) - sum(&b), 0);
    assert_eq!(names(&a), "AD");
    assert_eq!(names(&b), "BC");
}

#[test]
fn the_strongest_is_paired_with_the_weakest() {
    let [a, b] = balance_with(&players(&[100, 50, 30, 20]), false).unwrap();
    assert_eq!(names(&a), "AD");
    assert_eq!(names(&b), "BC");
    assert_eq!((sum(&a) - sum(&b)).abs(), 40);
    assert_eq!(least_gap(&[100, 50, 30, 20]), 40);
    let [a, b] = balance_with(&players(&[100, 50, 30, 20]), true).unwrap();
    assert_eq!(names(&a), "BC");
    assert_eq!(names(&b), "AD");
}

#[test]
fn one_strong_player_among_equals() {
    let [a, b] = balance_with(&players(&[100, 0, 0, 0]), false).unwrap();
    assert_eq!(a.len(), 2);
    assert_eq!(b.len(), 2);
    assert_eq!((sum(&a) - sum(&b)).abs(), 100);
    assert_eq!(names(&a), "AD");
    assert_eq!(names(&b), "BC");
}

#[test]
fn players_are_ranked_before_they_are_split() {
    let [a, b] = balance_with(&players(&[20, 100, 30, 50]), false).unwrap();
    assert_eq!(names(&a), "BA");
    assert_eq!(names(&b), "DC");
}

#[test]
fn the_split_is_the_best_of_all() {
    let lists: [&[i64]; 6] = [
        &[1500, 1480, 1320, 1710, 1655, 1402],
        &[7, 7, 7, 1, 1, 1, 30, 2],
        &[-50, 40, -30, 20, 10, 0],
        &[9, 8, 7, 6, 5, 4, 3, 2, 1, 0],
        &[i64::MAX, i64::MAX, i64::MIN, i64::MIN],
        &[3, 1],
    ];
    for means in lists {
        for flip in [false, true] {
            let [a, b] = balance_with(&players(means), flip).unwrap();
            assert_eq!(a.len(), means.len() / 2);
            assert_eq!(b.len(), means.len() / 2);
            let gap = (sum(&a) as i128 - sum(&b) as i128).abs();
            let mut all: Vec<char> = a.iter().chain(b.iter()).map(|p| p.0).collect();
            all.sort();
            let expected: Vec<char> = (0..means.len()).map(|i| (b'A' + i as u8) as char).collect();
            assert_eq!(all, expected);
            if means[0] != i64::MAX {
                assert_eq!(gap, least_gap(means) as i128);
            } else {
                assert_eq!(gap, 0);
            }
            assert!(a.windows(2).all(|w| w[0].1.mean >= w[1].1.mean));
            assert!(b.windows(2).all(|w| w[0].1.mean >= w[1].1.mean));
        }
    }
}

#[test]
fn the_smaller_team_of_an_odd_number_is_team_one() {
    for flip in [false, true] {
        let [a, b] = balance_with(&players(&[50, 40, 30, 20, 10]), flip).unwrap();
        assert_eq!(a.len(), 2);
        assert_eq!(b.len(), 3);
        assert_eq!(names(&a), "AE");
        assert_eq!(names(&b), "BCD");
    }
    let [a, b] = balance_with(&players(&[5, 6, 7]), true).unwrap();
    assert_eq!(names(&a), "A");
    assert_eq!(names(&b), "CB");
}

#[test]
fn the_coin_only_names_the_teams() {
    let list = players(&[1500, 1480, 1320, 1710]);
    let heads = balance_with(&list, false).unwrap();
    let tails = balance_with(&list, true).unwrap();
    assert_eq!(heads[0], tails[1]);
    assert_eq!(heads[1], tails[0]);
    for _ in 0..20 {
        let got = balance(&list).unwrap();
        assert!(got == heads || got == tails);
    }
}

#[test]
fn equal_means_keep_their_order() {
    let [a, b] = balance_with(&players(&[5, 5, 5, 5, 5, 5]), false).unwrap();
    assert_eq!(names(&a), "ABF");
    assert_eq!(names(&b), "CDE");
}

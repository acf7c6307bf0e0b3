use matchmaker::config::Rank;
use matchmaker::error::Error;
use matchmaker::leaderboard::{get_rank, leaderboard, paginate, ratings, select_page, Row};
use matchmaker::lobby::Lobby;
use matchmaker::rating::{PlayerInfo, Rating, Ratings};

fn rank(id: u64, limit: i64) -> Rank {
    Rank { id, name: format!("tier {}", id), limit, color: "grey".to_string() }
}

fn entries(means: &[i64]) -> Vec<(u64, Rating)> {
    means.iter().enumerate().map(|(i, m)| (i as u64 + 1, Rating::new(*m, 9))).collect()
}

fn lobby_with(means: &[i64]) -> Lobby {
    let mut table = Ratings::new();
    for (i, m) in means.iter().enumerate() {
        table.insert(i as u64 + 1, PlayerInfo::new(Rating::new(*m, 9)));
    }
    Lobby::new("ranked".to_string(), 4, table)
}

fn places(rows: &[Row]) -> Vec<usize> {
    rows.iter()
        .filter_map(|r| match r {
            Row::Player { place, .. } => Some(*place),
            Row::Rank { .. } => None,
        })
        .collect()
}

fn shape(rows: &[Row]) -> Vec<i64> {
    rows.iter()
        .map(|r| match r {
            Row::Player { user_id, .. } => *user_id as i64,
            Row::Rank { role_id, .. } => -(*role_id as i64),
        })
        .collect()
}

#[test]
fn forty_five_players_fill_three_pages() {
    let means: Vec<i64> = (0..45).map(|i| 3000 - 10 * i).collect();
    let pages = paginate(&entries(&means), 20, &vec![]);
    assert_eq!(pages.len(), 3);
    assert_eq!(places(&pages[0].rows), (1..=20).collect::<Vec<_>>());
    assert_eq!(places(&pages[1].rows), (21..=40).collect::<Vec<_>>());
    assert_eq!(places(&pages[2].rows), (41..=45).collect::<Vec<_>>());
    for (i, page) in pages.iter().enumerate() {
        assert_eq!(page.number, i + 1);
        assert_eq!(page.pages, 3);
    }
    assert!(matches!(pages[1].rows[0], Row::Player { place: 21, user_id: 21, .. }));
}

#[test]
fn page_counts() {
    assert_eq!(paginate(&entries(&[]), 20, &vec![]).len(), 0);
    assert_eq!(paginate(&entries(&[5]), 20, &vec![]).len(), 1);
    assert_eq!(paginate(&entries(&[5; 20]), 20, &vec![]).len(), 1);
    assert_eq!(paginate(&entries(&[5; 21]), 20, &vec![]).len(), 2);
    assert_eq!(paginate(&entries(&[5; 40]), 20, &vec![]).len(), 2);
    assert_eq!(paginate(&entries(&[5; 7]), 1, &vec![]).len(), 7);
    assert_eq!(paginate(&entries(&[5; 3]), usize::MAX, &vec![]).len(), 1);
}

#[test]
fn tiers_are_found_by_their_limits() {
    let ranks = vec![rank(1, 1000), rank(2, 1500), rank(3, 2000)];
    assert_eq!(get_rank(&ranks, 0), Some(0));
    assert_eq!(get_rank(&ranks, 999), Some(0));
    assert_eq!(get_rank(&ranks, 1000), Some(1));
    assert_eq!(get_rank(&ranks, 1499), Some(1));
    assert_eq!(get_rank(&ranks, 1999), Some(2));
    assert_eq!(get_rank(&ranks, 2000), None);
    assert_eq!(get_rank(&vec![], 5), None);
    let unordered = vec![rank(3, 2000), rank(1, 1000), rank(2, 1500), rank(4, 1500)];
    assert_eq!(get_rank(&unordered, 1200), Some(3));
    assert_eq!(get_rank(&unordered, 1700), Some(0));
    assert_eq!(get_rank(&unordered, -5), Some(1));
}

#[test]
fn a_head_stands_where_the_ranking_enters_a_tier() {
    let ranks = vec![rank(1, 1000), rank(2, 1500), rank(3, 2000)];
    let pages = paginate(&entries(&[2500, 1900, 1600, 1200, 900, 100]), 10, &ranks);
    assert_eq!(pages.len(), 1);
    assert_eq!(shape(&pages[0].rows), vec![1, -3, 2, 3, -2, 4, -1, 5, 6]);
    assert_eq!(pages[0].rows[1], Row::Rank { role_id: 3, limit: 2000 });
    assert_eq!(pages[0].rows[2], Row::Player { place: 2, user_id: 2, rating: Rating::new(1900, 9) });
}

#[test]
fn heads_of_empty_tiers_are_left_out() {
    let ranks = vec![rank(1, 1000), rank(2, 1500), rank(3, 2000)];
    let pages = paginate(&entries(&[1900, 900]), 10, &ranks);
    assert_eq!(shape(&pages[0].rows), vec![-3, 1, -1, 2]);
    let above = paginate(&entries(&[5000, 4000]), 10, &ranks);
    assert_eq!(shape(&above[0].rows), vec![1, 2]);
}

#[test]
fn every_page_starts_with_the_head_of_its_first_player() {
    let ranks = vec![rank(1, 1000), rank(2, 1500)];
    let pages = paginate(&entries(&[1400, 1300, 1200, 1100, 900]), 2, &ranks);
    assert_eq!(pages.len(), 3);
    assert_eq!(shape(&pages[0].rows), vec![-2, 1, 2]);
    assert_eq!(shape(&pages[1].rows), vec![-2, 3, 4]);
    assert_eq!(shape(&pages[2].rows), vec![-1, 5]);
    assert_eq!(places(&pages[2].rows), vec![5]);
}

#[test]
fn a_mean_on_the_limit_is_above_the_tier() {
    let ranks = vec![rank(1, 1000)];
    let pages = paginate(&entries(&[1000, 999]), 10, &ranks);
    assert_eq!(shape(&pages[0].rows), vec![1, -1, 2]);
}

#[test]
fn rows_know_their_value() {
    assert_eq!(Row::Player { place: 1, user_id: 2, rating: Rating::new(33, 4) }.value(), 33);
    assert_eq!(Row::Rank { role_id: 2, limit: 44 }.value(), 44);
    assert!(Row::Rank { role_id: 2, limit: 44 }.is_rank());
    assert!(!Row::Player { place: 1, user_id: 2, rating: Rating::new(33, 4) }.is_rank());
}

#[test]
fn ratings_are_filtered_and_ranked() {
    let lobby = lobby_with(&[1200, 1800, 1500, 900, 2100]);
    let all = ratings(&lobby, |_| true);
    assert_eq!(all.iter().map(|e| e.0).collect::<Vec<_>>(), vec![5, 2, 3, 1, 4]);
    assert_eq!(all[0].1, Rating::new(2100, 9));
    let odd = ratings(&lobby, |p| p % 2 == 1);
    assert_eq!(odd.iter().map(|e| e.0).collect::<Vec<_>>(), vec![5, 3, 1]);
    assert!(ratings(&lobby, |_| false).is_empty());
}

#[test]
fn leaderboard_of_a_lobby() {
    let means: Vec<i64> = (0..45).map(|i| 1000 + 7 * i).collect();
    let lobby = lobby_with(&means);
    let pages = leaderboard(&lobby, 20, &vec![rank(8, 1100)], |_| true);
    assert_eq!(pages.len(), 3);
    assert_eq!(places(&pages[0].rows).len(), 20);
    assert_eq!(places(&pages[1].rows).len(), 20);
    assert_eq!(places(&pages[2].rows), vec![41, 42, 43, 44, 45]);
    assert!(matches!(pages[0].rows[0], Row::Player { place: 1, user_id: 45, .. }));
    assert_eq!(pages[2].rows.len(), 6);
    assert!(matches!(pages[1].rows[10], Row::Rank { role_id: 8, limit: 1100 }));
    assert!(matches!(pages[2].rows[0], Row::Rank { role_id: 8, .. }));
    let few = leaderboard(&lobby, 20, &vec![], |p| p <= 3);
    assert_eq!(few.len(), 1);
    assert_eq!(shape(&few[0].rows), vec![3, 2, 1]);
    assert!(leaderboard(&lobby, 20, &vec![], |_| false).is_empty());
}

#[test]
fn pages_are_asked_for_by_number() {
    let pages = paginate(&entries(&[5; 45]), 20, &vec![]);
    assert_eq!(select_page(&pages, 1).unwrap().number, 1);
    assert_eq!(select_page(&pages, 3).unwrap().number, 3);
    assert_eq!(select_page(&pages, 4).unwrap().number, 3);
    assert_eq!(select_page(&pages, usize::MAX).unwrap().number, 3);
    assert!(matches!(select_page(&pages, 0), Err(Error::BadArgument)));
    assert!(matches!(select_page(&vec![], 1), Err(Error::BadArgument)));
}

use arena_contracts::leaderboard::{apply_ratings, find_rating, leaderboard_limit, rating_leaderboard, set_rating, RatingEntry};

fn entry(category_id: u128, addr: &str, value: u128) -> RatingEntry {
    RatingEntry { category_id, addr: addr.to_string(), value }
}

fn names(board: &[&RatingEntry]) -> Vec<String> {
    board.iter().map(|e| e.addr.clone()).collect()
}

#[test]
fn leaderboard_limit_never_falls_below_the_default() {
    assert_eq!(leaderboard_limit(None), 30);
    assert_eq!(leaderboard_limit(Some(5)), 30);
    assert_eq!(leaderboard_limit(Some(0)), 30);
    assert_eq!(leaderboard_limit(Some(45)), 45);
}

#[test]
fn leaderboard_ranks_highest_first() {
    let ratings = vec![entry(1, "bob", 1500), entry(1, "amy", 1700), entry(1, "cid", 1600)];
    let board = rating_leaderboard(&ratings, 1, None, None);
    assert_eq!(names(&board), vec!["amy", "cid", "bob"]);
}

#[test]
fn equal_ratings_rank_by_category_then_address() {
    let ratings = vec![
        entry(1, "amy", 1500),
        entry(2, "amy", 1500),
        entry(1, "bob", 1500),
        entry(2, "ann", 1500),
    ];
    let board = rating_leaderboard(&ratings, 1, None, None);
    let keys: Vec<(u128, String)> = board.iter().map(|e| (e.category_id, e.addr.clone())).collect();
    assert_eq!(
        keys,
        vec![
            (2, "ann".to_string()),
            (2, "amy".to_string()),
            (1, "bob".to_string()),
            (1, "amy".to_string()),
        ]
    );
}

#[test]
fn leaderboard_keeps_only_entries_beyond_the_start() {
    let ratings = vec![entry(1, "bob", 1500), entry(1, "amy", 1700), entry(1, "cid", 1600)];
    // The start bounds the ranking from below: entries ranked above it remain.
    let board = rating_leaderboard(&ratings, 1, Some((1600, "cid".to_string())), None);
    assert_eq!(names(&board), vec!["amy"]);
    let board = rating_leaderboard(&ratings, 1, Some((1000, "zed".to_string())), None);
    assert_eq!(names(&board), vec!["amy", "cid", "bob"]);
}

#[test]
fn leaderboard_stops_at_its_size() {
    let ratings: Vec<RatingEntry> = (0..40u128).map(|i| entry(1, &format!("m{:02}", i), 1000 + i)).collect();
    let board = rating_leaderboard(&ratings, 1, None, Some(3));
    assert_eq!(board.len(), 30);
    assert_eq!(board[0].addr, "m39");
    assert_eq!(board[29].addr, "m10");
    let board = rating_leaderboard(&ratings, 1, None, Some(35));
    assert_eq!(board.len(), 35);
}

#[test]
fn new_ratings_replace_only_their_own() {
    let mut ratings = vec![entry(1, "amy", 1500), entry(2, "amy", 1400), entry(1, "bob", 1500)];
    set_rating(&mut ratings, 1, &"amy".to_string(), 1520);
    assert_eq!(find_rating(&ratings, 1, &"amy".to_string()), Some(1520));
    assert_eq!(find_rating(&ratings, 2, &"amy".to_string()), Some(1400));
    assert_eq!(find_rating(&ratings, 1, &"bob".to_string()), Some(1500));
    assert_eq!(ratings.len(), 3);
    // A pair adjusted together, one of them new to the category.
    apply_ratings(&mut ratings, 2, &vec![("amy".to_string(), 1390), ("cid".to_string(), 1510)]);
    assert_eq!(find_rating(&ratings, 2, &"amy".to_string()), Some(1390));
    assert_eq!(find_rating(&ratings, 2, &"cid".to_string()), Some(1510));
    assert_eq!(find_rating(&ratings, 1, &"amy".to_string()), Some(1520));
    assert_eq!(find_rating(&ratings, 1, &"cid".to_string()), None);
    // The last value given wins.
    apply_ratings(&mut ratings, 1, &vec![("bob".to_string(), 1490), ("bob".to_string(), 1480)]);
    assert_eq!(find_rating(&ratings, 1, &"bob".to_string()), Some(1480));
    assert_eq!(ratings.len(), 4);
}

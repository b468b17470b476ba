use scoreboard::expiry::{next_midnight, SECONDS_PER_DAY};
use scoreboard::standings::MAX_TOP;
use scoreboard::store::validate_names;
use scoreboard::{RankingStore, StoreError};

const NOON: u64 = 1_700_000_000 - 1_700_000_000 % 86_400 + 43_200;

fn entry(member: &str, score: i64) -> (String, i64) {
    (member.to_string(), score)
}

#[test]
fn daily_scenario_combines_and_ranks() {
    let mut store = RankingStore::new();
    assert_eq!(store.add_score("daily", "alice", 5, NOON), Ok(5));
    assert_eq!(store.add_score("daily", "bob", 9, NOON), Ok(9));
    assert_eq!(store.add_score("daily", "alice", 2, NOON), Ok(7));
    assert_eq!(store.get_top("daily", 10, NOON), vec![entry("bob", 9), entry("alice", 7)]);
}

#[test]
fn removing_absent_member_returns_zero() {
    let mut store = RankingStore::new();
    store.add_score("daily", "alice", 5, NOON).unwrap();
    store.add_score("daily", "bob", 9, NOON).unwrap();
    assert_eq!(store.remove_member("daily", "carol", NOON), 0);
    assert_eq!(store.get_top("daily", 10, NOON), vec![entry("bob", 9), entry("alice", 5)]);
}

#[test]
fn negative_delta_lowers_score() {
    let mut store = RankingStore::new();
    store.add_score("daily", "alice", 7, NOON).unwrap();
    store.add_score("daily", "bob", 5, NOON).unwrap();
    assert_eq!(store.get_top("daily", 10, NOON), vec![entry("alice", 7), entry("bob", 5)]);
    assert_eq!(store.add_score("daily", "alice", -3, NOON), Ok(4));
    assert_eq!(store.get_top("daily", 10, NOON), vec![entry("bob", 5), entry("alice", 4)]);
}

#[test]
fn empty_key_lists_nothing_and_removes_nothing() {
    let mut store = RankingStore::new();
    assert_eq!(store.get_top("daily", 10, NOON), Vec::<(String, i64)>::new());
    assert_eq!(store.remove_member("daily", "alice", NOON), 0);
    assert_eq!(store.remove_member("", "", NOON), 0);
    assert_eq!(store.expires_at("daily"), None);
}

#[test]
fn two_additions_make_one_entry() {
    let mut store = RankingStore::new();
    store.add_score("weekly", "zed", 3, NOON).unwrap();
    assert_eq!(store.add_score("weekly", "zed", 4, NOON + 60), Ok(7));
    assert_eq!(store.get_top("weekly", 100, NOON + 60), vec![entry("zed", 7)]);
}

#[test]
fn equal_scores_rank_by_when_reached() {
    let mut store = RankingStore::new();
    store.add_score("k", "carol", 5, NOON).unwrap();
    store.add_score("k", "alice", 5, NOON).unwrap();
    store.add_score("k", "bob", 2, NOON).unwrap();
    store.add_score("k", "bob", 3, NOON).unwrap();
    let expected = vec![entry("carol", 5), entry("alice", 5), entry("bob", 5)];
    assert_eq!(store.get_top("k", 10, NOON), expected);
    assert_eq!(store.get_top("k", 10, NOON), expected);
    store.add_score("k", "carol", 0, NOON).unwrap();
    assert_eq!(
        store.get_top("k", 10, NOON),
        vec![entry("alice", 5), entry("bob", 5), entry("carol", 5)]
    );
}

#[test]
fn listing_is_in_descending_score_order() {
    let mut store = RankingStore::new();
    let scores: [i64; 8] = [4, -2, 17, 0, 9, 9, 33, 1];
    for (i, s) in scores.iter().enumerate() {
        store.add_score("k", &format!("m{}", i), *s, NOON).unwrap();
    }
    let top = store.get_top("k", 100, NOON);
    assert_eq!(top.len(), scores.len());
    for w in top.windows(2) {
        assert!(w[0].1 >= w[1].1);
    }
    assert_eq!(top[0], entry("m6", 33));
    assert_eq!(top[7], entry("m1", -2));
}

#[test]
fn listing_is_capped() {
    let mut store = RankingStore::new();
    for i in 0..150i64 {
        store.add_score("big", &format!("p{}", i), i, NOON).unwrap();
    }
    let all = store.get_top("big", usize::MAX, NOON);
    assert_eq!(all.len(), MAX_TOP);
    assert_eq!(all[0], entry("p149", 149));
    assert_eq!(all[99], entry("p50", 50));
    assert_eq!(store.get_top("big", 5, NOON).len(), 5);
    assert_eq!(store.get_top("big", 0, NOON).len(), 0);
}

#[test]
fn removed_member_is_gone() {
    let mut store = RankingStore::new();
    store.add_score("daily", "alice", 5, NOON).unwrap();
    store.add_score("daily", "bob", 9, NOON).unwrap();
    let expiry = store.expires_at("daily");
    assert_eq!(store.remove_member("daily", "alice", NOON + 5), 1);
    assert_eq!(store.get_top("daily", usize::MAX, NOON + 5), vec![entry("bob", 9)]);
    assert_eq!(store.expires_at("daily"), expiry);
    assert_eq!(store.remove_member("daily", "alice", NOON + 5), 0);
}

#[test]
fn removing_last_member_drops_the_key() {
    let mut store = RankingStore::new();
    store.add_score("daily", "alice", 5, NOON).unwrap();
    assert_eq!(store.remove_member("daily", "alice", NOON), 1);
    assert_eq!(store.expires_at("daily"), None);
}

#[test]
fn leaderboard_expires_at_next_midnight() {
    let mut store = RankingStore::new();
    let midnight = NOON - 43_200 + SECONDS_PER_DAY;
    store.add_score("daily", "alice", 5, NOON).unwrap();
    assert_eq!(store.expires_at("daily"), Some(midnight));
    assert_eq!(store.get_top("daily", 10, midnight - 1), vec![entry("alice", 5)]);
    assert_eq!(store.get_top("daily", 10, midnight), Vec::<(String, i64)>::new());
    assert_eq!(store.remove_member("daily", "alice", midnight + 10), 0);
    assert_eq!(store.add_score("daily", "alice", 2, midnight + 10), Ok(2));
    assert_eq!(store.expires_at("daily"), Some(midnight + SECONDS_PER_DAY));
    assert_eq!(store.get_top("daily", 10, midnight + 10), vec![entry("alice", 2)]);
}

#[test]
fn a_write_refreshes_the_expiry() {
    let mut store = RankingStore::new();
    let midnight = NOON - 43_200 + SECONDS_PER_DAY;
    store.add_score("daily", "alice", 5, NOON).unwrap();
    store.add_score("daily", "bob", 1, midnight - 1).unwrap();
    assert_eq!(store.expires_at("daily"), Some(midnight));
    store.add_score("other", "bob", 1, midnight + 1).unwrap();
    assert_eq!(store.expires_at("other"), Some(midnight + SECONDS_PER_DAY));
    assert_eq!(store.expires_at("daily"), Some(midnight));
}

#[test]
fn empty_names_are_rejected() {
    let mut store = RankingStore::new();
    assert_eq!(store.add_score("", "alice", 1, NOON), Err(StoreError::InvalidArgument));
    assert_eq!(store.add_score("daily", "", 1, NOON), Err(StoreError::InvalidArgument));
    assert_eq!(store.get_top("", 10, NOON), Vec::<(String, i64)>::new());
    assert_eq!(validate_names("daily", "alice"), Ok(()));
    assert_eq!(validate_names("", "alice"), Err(StoreError::InvalidArgument));
}

#[test]
fn score_overflow_is_rejected_and_changes_nothing() {
    let mut store = RankingStore::new();
    store.add_score("daily", "alice", i64::MAX - 1, NOON).unwrap();
    assert_eq!(store.add_score("daily", "alice", 2, NOON), Err(StoreError::ScoreOutOfRange));
    assert_eq!(store.get_top("daily", 10, NOON), vec![entry("alice", i64::MAX - 1)]);
    assert_eq!(store.add_score("daily", "alice", 1, NOON), Ok(i64::MAX));
}

#[test]
fn next_midnight_values() {
    assert_eq!(next_midnight(0), 86_400);
    assert_eq!(next_midnight(86_399), 86_400);
    assert_eq!(next_midnight(86_400), 172_800);
    assert_eq!(next_midnight(NOON), NOON + 43_200);
}

use chrono::{Datelike, NaiveDate};
use memo::names::{catalog_names, get_file_stem_str, is_note_path, item_link, terminal_link};
use memo::select::{build_pool, first_distinct, select_top, select_weighted};
use memo::store::{history_to_save, text_before, ReviewRecord, Store};
use memo::weight::{
    days_since_last, max_lookback, resolve_today, weight, Date, DAILY_QUOTA, MINIMUM_WEIGHT,
    UNSEEN_WEIGHT,
};

fn day(y: i32, m: u32, d: u32) -> Date {
    Date { day: NaiveDate::from_ymd_opt(y, m, d).unwrap().num_days_from_ce() }
}

fn record(name: &str, last: Option<Date>, count: u32) -> ReviewRecord {
    ReviewRecord { name: name.to_string(), last_reviewed: last, review_count: count }
}

fn score(count: u32, days: u64) -> i64 {
    let retention = 0.96f64.powi(days as i32);
    (10.0 + (1.0 - retention) * 100.0 - (count as f64).ln() * 5.0).round() as i64
}

#[test]
fn unseen_note_has_full_urgency() {
    assert_eq!(weight(0, 0), UNSEEN_WEIGHT);
    assert_eq!(weight(0, -500), 110);
    assert_eq!(weight(0, 7), 110);
}

#[test]
fn weight_never_below_minimum() {
    assert_eq!(weight(3, -40), MINIMUM_WEIGHT);
    assert_eq!(weight(3, 0), 1);
    assert_eq!(weight(3, 1), 1);
    assert_eq!(weight(3, 2), 2);
    assert_eq!(weight(1000, score(1000, 0)), 1);
}

#[test]
fn weight_of_worked_example() {
    let today = resolve_today(Some("2024-01-10"), day(2000, 1, 1));
    let last = day(2024, 1, 1);
    let days = days_since_last(Some(last), today, 5);
    assert_eq!(days, 9);
    assert_eq!(weight(5, score(5, days)), 33);
}

#[test]
fn weight_grows_with_days_and_falls_with_count() {
    let mut prev = 0;
    for d in 0..200u64 {
        let w = weight(4, score(4, d));
        assert!(w >= prev);
        prev = w;
    }
    let mut prev = u64::MAX;
    for c in 1..100u32 {
        let w = weight(c, score(c, 30));
        assert!(w <= prev);
        assert!(w <= weight(0, score(c, 30)));
        prev = w;
    }
}

#[test]
fn days_since_last_cases() {
    let today = day(2024, 1, 10);
    assert_eq!(days_since_last(Some(day(2024, 1, 1)), today, 4), 9);
    assert_eq!(days_since_last(Some(day(2024, 1, 20)), today, 4), 0);
    assert_eq!(days_since_last(Some(today), today, 4), 0);
    assert_eq!(days_since_last(None, today, 4), 4);
    assert_eq!(days_since_last(Some(day(2023, 1, 10)), today, 4), 365);
}

#[test]
fn max_lookback_is_rounded_up() {
    assert_eq!(max_lookback(0), 0);
    assert_eq!(max_lookback(1), 1);
    assert_eq!(max_lookback(3), 2);
    assert_eq!(max_lookback(4), 3);
    assert_eq!(max_lookback(10), 7);
    assert_eq!(max_lookback(30), 20);
}

#[test]
fn resolve_today_parses_or_falls_back() {
    let now = day(2025, 6, 1);
    assert_eq!(resolve_today(Some("2024-01-10"), now), day(2024, 1, 10));
    assert_eq!(resolve_today(Some("2024-02-29"), now), day(2024, 2, 29));
    assert_eq!(resolve_today(Some("2023-02-29"), now), now);
    assert_eq!(resolve_today(Some("yesterday"), now), now);
    assert_eq!(resolve_today(None, now), now);
}

#[test]
fn pool_repeats_each_index_by_weight() {
    assert_eq!(build_pool(&vec![2, 0, 1, 3]), vec![0, 0, 2, 3, 3, 3]);
    assert_eq!(build_pool(&vec![]), Vec::<usize>::new());
}

#[test]
fn first_distinct_keeps_first_occurrences() {
    assert_eq!(first_distinct(&vec![2, 2, 0, 2, 1, 3], 3), vec![2, 0, 1]);
    assert_eq!(first_distinct(&vec![4, 4, 4], 3), vec![4]);
    assert_eq!(first_distinct(&vec![], 3), Vec::<usize>::new());
    assert_eq!(first_distinct(&vec![1, 0], 0), Vec::<usize>::new());
}

#[test]
fn weighted_selection_size_and_distinct() {
    for n in 0..8usize {
        let weights: Vec<u64> = (0..n as u64).map(|i| 1 + (i * 37) % 110).collect();
        for _ in 0..50 {
            let r = select_weighted(&weights, DAILY_QUOTA);
            assert_eq!(r.len(), n.min(DAILY_QUOTA));
            let mut seen = r.clone();
            seen.sort();
            seen.dedup();
            assert_eq!(seen.len(), r.len());
            assert!(r.iter().all(|&i| i < n));
        }
    }
}

#[test]
fn weighted_selection_favours_heavy_items() {
    let weights = vec![1, 1, 1, 1, 1, 110];
    let mut hits_heavy = 0;
    let mut hits_light = 0;
    for _ in 0..300 {
        let r = select_weighted(&weights, 1);
        if r[0] == 5 {
            hits_heavy += 1;
        } else if r[0] == 0 {
            hits_light += 1;
        }
    }
    assert!(hits_heavy > hits_light);
}

#[test]
fn top_selection_matches_sorting() {
    let weights = vec![5, 33, 110, 1, 33, 47, 110, 2];
    let r = select_top(&weights, 3);
    let mut order: Vec<usize> = (0..weights.len()).collect();
    order.sort_by(|&a, &b| weights[b].cmp(&weights[a]).then(a.cmp(&b)));
    assert_eq!(r, order[..3].to_vec());
    assert_eq!(r, vec![2, 6, 5]);
    assert_eq!(select_top(&weights, weights.len()), order);
}

#[test]
fn top_selection_with_few_items() {
    assert_eq!(select_top(&vec![3, 9], 3), vec![1, 0]);
    assert_eq!(select_top(&vec![], 3), Vec::<usize>::new());
}

#[test]
fn modify_counts_calls_and_keeps_last_date() {
    let mut store = Store::new();
    let dates = [day(2024, 1, 1), day(2024, 1, 5), day(2024, 2, 1), day(2024, 3, 9)];
    for d in dates.iter() {
        store.modify("x", *d);
    }
    assert_eq!(store.get("x"), Some((Some(day(2024, 3, 9)), 4)));
    assert_eq!(store.get("y"), None);
}

#[test]
fn modify_updates_existing_record() {
    let mut store = Store::from_records(vec![record("a", Some(day(2024, 1, 1)), 5), record("b", None, 2)]);
    store.modify("b", day(2024, 1, 10));
    assert_eq!(store.get("a"), Some((Some(day(2024, 1, 1)), 5)));
    assert_eq!(store.get("b"), Some((Some(day(2024, 1, 10)), 3)));
}

#[test]
fn from_records_keeps_first_of_each_name() {
    let store = Store::from_records(vec![record("a", None, 1), record("b", None, 2), record("a", None, 9)]);
    assert_eq!(store.get("a"), Some((None, 1)));
    assert_eq!(store.records_by_name().len(), 2);
}

#[test]
fn saved_records_reload_equal() {
    let store = Store::from_records(vec![
        record("zeta", Some(day(2024, 1, 3)), 2),
        record("alpha", None, 1),
        record("mid", Some(day(2023, 12, 31)), 7),
    ]);
    let saved = store.records_by_name();
    let names: Vec<&str> = saved.iter().map(|r| r.name.as_str()).collect();
    assert_eq!(names, vec!["alpha", "mid", "zeta"]);
    let reloaded = Store::from_records(saved);
    for n in ["zeta", "alpha", "mid", "none"] {
        assert_eq!(reloaded.get(n), store.get(n));
    }
    assert_eq!(reloaded.records_by_name().len(), 3);
}

#[test]
fn three_new_notes_all_chosen_and_recorded() {
    let paths = vec!["v/A.md".to_string(), "v/B.md".to_string(), "v/sub/C.md".to_string()];
    let catalog = catalog_names(&paths);
    assert_eq!(catalog, vec!["A", "B", "C"]);
    let store = Store::new();
    let today = resolve_today(Some("2024-01-10"), day(2000, 1, 1));
    let weights: Vec<u64> = catalog.iter().map(|_| weight(0, 0)).collect();
    let mut chosen = select_weighted(&weights, DAILY_QUOTA);
    chosen.sort();
    assert_eq!(chosen, vec![0, 1, 2]);
    let names: Vec<String> = chosen.iter().map(|&i| catalog[i].clone()).collect();
    let saved = history_to_save(store, &names, today, false).unwrap();
    for n in ["A", "B", "C"] {
        assert_eq!(saved.get(n), Some((Some(day(2024, 1, 10)), 1)));
    }
}

#[test]
fn dry_run_saves_nothing() {
    let store = Store::from_records(vec![record("A", None, 1)]);
    let names = vec!["A".to_string(), "B".to_string()];
    assert!(history_to_save(store, &names, day(2024, 1, 10), true).is_none());
}

#[test]
fn catalog_keeps_notes_once() {
    let paths = vec![
        "root/a.md".to_string(),
        "root/b.txt".to_string(),
        "root/x/a.md".to_string(),
        "root/c".to_string(),
        "root/d.md".to_string(),
    ];
    assert_eq!(catalog_names(&paths), vec!["a", "d"]);
}

#[test]
fn file_stems_and_extensions() {
    assert_eq!(get_file_stem_str("dir/sub/note.md"), "note");
    assert_eq!(get_file_stem_str("dir/archive.tar.gz"), "archive.tar");
    assert_eq!(get_file_stem_str(".."), "");
    assert!(is_note_path("a/b/c.md"));
    assert!(!is_note_path("a/b/c.mdx"));
    assert!(!is_note_path("a/b/md"));
}

#[test]
fn links_are_percent_encoded() {
    assert_eq!(item_link("my note"), "obsidian://open?vault=memo&file=my%20note");
    assert_eq!(item_link("a&b"), "obsidian://open?vault=memo&file=a%26b");
    assert_eq!(
        terminal_link("x y"),
        Some("\x1b]8;;obsidian://open?vault=memo&file=x%20y\x1b\\x y\x1b]8;;\x1b\\".to_string())
    );
    assert_eq!(terminal_link(""), None);
}

#[test]
fn text_order_is_lexicographic() {
    assert!(text_before("a", "b"));
    assert!(text_before("ab", "abc"));
    assert!(!text_before("abc", "ab"));
    assert!(!text_before("same", "same"));
    assert!(text_before("", "a"));
    assert!(text_before("Z", "a"));
}

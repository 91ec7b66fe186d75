use std::collections::HashMap;
use string_ids::lookup2::lookup2;
use string_ids::search::{brute_force, brute_force_until_found, KeyBuilder};

fn digest(id: u32) -> u32 {
    lookup2(format!("Global.Text.{id}").as_bytes(), 0)
}

fn sample_table() -> HashMap<u32, String> {
    let mut table = HashMap::new();
    table.insert(digest(7), "seven".to_string());
    table.insert(digest(42), "answer".to_string());
    table.insert(digest(1000), "thousand".to_string());
    table
}

#[test]
fn key_builder_writes_prefix_and_digits() {
    let mut kb = KeyBuilder::new();
    assert_eq!(kb.build(42), 14);
    assert_eq!(kb.build(4294967295), 22);
    assert_eq!(kb.digest(42), digest(42));
    assert_eq!(kb.digest(0), 2587045306);
}

#[test]
fn round_trip_finds_each_entry() {
    let r = brute_force(&sample_table(), 0, 2000);
    assert_eq!(
        r,
        vec![
            (7, "seven".to_string()),
            (42, "answer".to_string()),
            (1000, "thousand".to_string())
        ]
    );
}

#[test]
fn round_trip_with_early_exit() {
    let r = brute_force_until_found(sample_table(), 0, 2000);
    assert_eq!(
        r,
        vec![
            (7, "seven".to_string()),
            (42, "answer".to_string()),
            (1000, "thousand".to_string())
        ]
    );
}

#[test]
fn early_exit_matches_exhaustive() {
    for (start, end) in [(0u32, 50u32), (8, 1001), (43, 999), (0, 10)] {
        assert_eq!(
            brute_force(&sample_table(), start, end),
            brute_force_until_found(sample_table(), start, end)
        );
    }
}

#[test]
fn early_exit_stops_once_all_found() {
    let mut table = HashMap::new();
    table.insert(digest(3), "three".to_string());
    let r = brute_force_until_found(table, 0, u32::MAX);
    assert_eq!(r, vec![(3, "three".to_string())]);
}

#[test]
fn results_are_strictly_ascending() {
    let r = brute_force(&sample_table(), 0, 5000);
    for w in r.windows(2) {
        assert!(w[0].0 < w[1].0);
    }
}

#[test]
fn range_excludes_its_end() {
    let r = brute_force(&sample_table(), 7, 42);
    assert_eq!(r, vec![(7, "seven".to_string())]);
    let r = brute_force_until_found(sample_table(), 8, 43);
    assert_eq!(r, vec![(42, "answer".to_string())]);
}

#[test]
fn empty_table_gives_nothing() {
    assert!(brute_force(&HashMap::new(), 0, 1000).is_empty());
    assert!(brute_force_until_found(HashMap::new(), 0, u32::MAX).is_empty());
}

#[test]
fn empty_range_gives_nothing() {
    assert!(brute_force(&sample_table(), 50, 50).is_empty());
    assert!(brute_force(&sample_table(), 2000, 0).is_empty());
    assert!(brute_force_until_found(sample_table(), 2000, 0).is_empty());
}

#[test]
fn unmatched_hashes_are_not_reported() {
    let mut table = HashMap::new();
    table.insert(digest(5000), "far".to_string());
    assert!(brute_force(&table, 0, 100).is_empty());
    assert!(brute_force_until_found(table, 0, 100).is_empty());
}

#[test]
fn colliding_ids_give_one_result() {
    assert_eq!(digest(43407), 2094637502);
    assert_eq!(digest(53408), 2094637502);
    let mut table = HashMap::new();
    table.insert(2094637502, "shared".to_string());
    let expected = vec![(43407, "shared".to_string())];
    assert_eq!(brute_force(&table, 0, 60000), expected);
    assert_eq!(brute_force_until_found(table.clone(), 0, 60000), expected);
    let later = vec![(53408, "shared".to_string())];
    assert_eq!(brute_force(&table, 43408, 60000), later);
    assert_eq!(brute_force_until_found(table, 43408, 60000), later);
}

#[test]
fn key_buffer_holds_the_identifier() {
    let mut kb = KeyBuilder::new();
    let n = kb.build(1234567);
    assert_eq!(&kb.key()[..n], b"Global.Text.1234567");
    let n = kb.build(5);
    assert_eq!(&kb.key()[..n], b"Global.Text.5");
}

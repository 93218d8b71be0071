use std::hash::{BuildHasher, BuildHasherDefault};
use dir_tools::transfer::{name_stripe, newest_per_destination, replace_newest_decision, stripe_of_hash, transfer_error_message, TransferDecision, NAME_LOCK_STRIPES};

#[test]
fn stripe_is_deterministic_and_within_bounds() {
    assert_eq!(name_stripe("a.txt"), name_stripe("a.txt"));
    for i in 0..200 {
        assert!(name_stripe(&format!("name{i}")) < NAME_LOCK_STRIPES);
    }
}

#[test]
fn stripe_of_hash_takes_the_remainder() {
    assert_eq!(stripe_of_hash(0), 0);
    assert_eq!(stripe_of_hash(63), 63);
    assert_eq!(stripe_of_hash(64), 0);
    assert_eq!(stripe_of_hash(130), 2);
    assert_eq!(stripe_of_hash(u64::MAX), 63);
}

#[test]
fn stripe_follows_the_default_hasher() {
    let h = BuildHasherDefault::<std::collections::hash_map::DefaultHasher>::default().hash_one("some/name.txt");
    assert_eq!(name_stripe("some/name.txt"), (h % 64) as usize);
}

fn is_transfer(d: TransferDecision) -> bool {
    matches!(d, TransferDecision::Transfer)
}
fn is_replace(d: TransferDecision) -> bool {
    matches!(d, TransferDecision::ReplaceExisting)
}
fn is_skip(d: TransferDecision) -> bool {
    matches!(d, TransferDecision::Skip)
}

#[test]
fn missing_destination_is_always_filled() {
    assert!(is_transfer(replace_newest_decision(false, None, None)));
    assert!(is_transfer(replace_newest_decision(false, Some(1), Some(5))));
}

#[test]
fn newer_source_replaces_existing() {
    assert!(is_replace(replace_newest_decision(true, Some(10), Some(5))));
}

#[test]
fn older_or_equal_source_is_skipped() {
    assert!(is_skip(replace_newest_decision(true, Some(5), Some(10))));
    assert!(is_skip(replace_newest_decision(true, Some(5), Some(5))));
}

#[test]
fn unknown_times_keep_existing() {
    assert!(is_skip(replace_newest_decision(true, None, Some(5))));
    assert!(is_skip(replace_newest_decision(true, Some(5), None)));
}

#[test]
fn times_before_the_epoch_compare_in_order() {
    assert!(is_replace(replace_newest_decision(true, Some(-3), Some(-7))));
}

#[test]
fn transfer_error_names_the_action() {
    assert_eq!(
        transfer_error_message(true, "/a/b.txt", "denied"),
        "Ошибка перемещения файла /a/b.txt: denied"
    );
    assert_eq!(
        transfer_error_message(false, "/a/b.txt", "denied"),
        "Ошибка копирования файла /a/b.txt: denied"
    );
}

fn strings(v: &[&str]) -> Vec<String> {
    v.iter().map(|s| s.to_string()).collect()
}

#[test]
fn newest_file_wins_each_destination() {
    let dests = strings(&["readme.md", "sub/config.txt", "only_a.txt", "readme.md", "sub/config.txt"]);
    let times = vec![Some(100), Some(100), Some(50), Some(200), Some(200)];
    assert_eq!(newest_per_destination(&dests, &times), vec![false, false, true, true, true]);
    // The walk order does not matter: the newer snapshot may come first.
    let dests = strings(&["readme.md", "readme.md"]);
    assert_eq!(newest_per_destination(&dests, &vec![Some(200), Some(100)]), vec![true, false]);
}

#[test]
fn equally_new_files_keep_the_first() {
    let dests = strings(&["x", "x", "x"]);
    assert_eq!(newest_per_destination(&dests, &vec![Some(5), Some(7), Some(7)]), vec![false, true, false]);
}

#[test]
fn unknown_times_lose_to_known_ones() {
    let dests = strings(&["x", "x", "y", "y"]);
    let times = vec![None, Some(-3), None, None];
    assert_eq!(newest_per_destination(&dests, &times), vec![false, true, true, false]);
    assert_eq!(newest_per_destination(&Vec::new(), &Vec::new()), Vec::<bool>::new());
}

use jot::utils::{
    contains_text, generate_new_uuid, num_to_string_id, pluralize_time_unit, pretty_duration,
    uuid_from_draw,
};
use std::collections::HashSet;

#[test]
fn test_pluralize_time_unit() {
    assert_eq!(pluralize_time_unit(1, "day"), "day");
    assert_eq!(pluralize_time_unit(2, "day"), "days");
    assert_eq!(pluralize_time_unit(-2, "minute"), "minutes");
}

#[test]
fn test_pretty_duration() {
    assert_eq!(pretty_duration(chrono::Duration::seconds(1).num_seconds()), (1, "second"));
    assert_eq!(pretty_duration(chrono::Duration::seconds(124).num_seconds()), (2, "minute"));
    assert_eq!(pretty_duration(chrono::Duration::minutes(64).num_seconds()), (1, "hour"));
    assert_eq!(pretty_duration(chrono::Duration::hours(54).num_seconds()), (2, "day"));
    assert_eq!(pretty_duration(chrono::Duration::days(10).num_seconds()), (1, "week"));
    assert_eq!(pretty_duration(chrono::Duration::days(365).num_seconds()), (52, "week"));
}

#[test]
fn test_num_to_string_id() {
    let mut all = HashSet::new();
    let size = 50000;
    for i in 0..size {
        all.insert(num_to_string_id(i));
    }
    assert_eq!(size as usize, all.len());

    assert_eq!(num_to_string_id(0).len(), 2);
    assert_eq!(num_to_string_id(26).len(), 2);
    assert_eq!(num_to_string_id(26 * 26).len(), 3);
    assert_eq!(num_to_string_id(26 * 26 * 26).len(), 4);
    assert_eq!(num_to_string_id(26 * 26 * 26 * 26).len(), 5);
}

#[test]
fn generated_ids_are_new() {
    let mut used: Vec<String> = Vec::new();
    for made in 0..3000 {
        let id = generate_new_uuid(&used);
        assert!(!used.contains(&id));
        assert!(id.chars().all(|c| c.is_ascii_lowercase()));
        // The pool holds 676 numbers while fewer than 650 ids are in use,
        // and 17576 after that.
        if made < 650 {
            assert!(id.len() == 2 || id.len() == 3);
        } else {
            assert!((2..=4).contains(&id.len()));
        }
        used.push(id);
    }
    let all: HashSet<&String> = used.iter().collect();
    assert_eq!(all.len(), 3000);
}

#[test]
fn ids_are_written_with_the_lowest_letter_first() {
    assert_eq!(num_to_string_id(0), "ab");
    assert_eq!(num_to_string_id(1), "bb");
    assert_eq!(num_to_string_id(25), "zb");
    assert_eq!(num_to_string_id(26), "ac");
    assert_eq!(num_to_string_id(649), "zz");
    assert_eq!(num_to_string_id(650), "aab");
    assert_eq!(num_to_string_id(675), "zab");
    assert_eq!(num_to_string_id(u32::MAX), "vylrmxn");
}

#[test]
fn the_id_for_a_draw() {
    let none: Vec<String> = Vec::new();
    assert_eq!(uuid_from_draw(&none, 0), "ab");
    assert_eq!(uuid_from_draw(&none, 1), "bb");
    assert_eq!(uuid_from_draw(&none, 676), "ab");
    assert_eq!(uuid_from_draw(&none, 677), "bb");
    let used = vec!["ab".to_string(), "bb".to_string(), "zab".to_string()];
    assert_eq!(uuid_from_draw(&used, 0), "cb");
    assert_eq!(uuid_from_draw(&used, 1), "cb");
    assert_eq!(uuid_from_draw(&used, 2), "cb");
    assert_eq!(uuid_from_draw(&used, 3), "db");
    // The search goes round at the end of the pool.
    assert_eq!(uuid_from_draw(&used, 675), "cb");
    // With 650 ids in use the pool is the third power of 26.
    let many: Vec<String> = (0..650).map(num_to_string_id).collect();
    assert_eq!(uuid_from_draw(&many, 0), "aab");
    assert_eq!(uuid_from_draw(&many, 17_575), "zaab");
    assert_eq!(uuid_from_draw(&many, 17_576), "aab");
    assert!(contains_text(&many, &"zz".to_string()));
    assert!(!contains_text(&many, &"aab".to_string()));
}

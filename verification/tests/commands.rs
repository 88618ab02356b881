use jot::commands::notify::{
    check_reminder, daemon_mode, load_notified, mark_notified, notify, ReminderAction,
};
use jot::commands::tags::{tags_command, TagCount};
use jot::commands::view::{display, search_string_to_regex};
use jot::jot::{stream_jots, Jot};
use jot::rewrite::{Change, FileStep, Rewrite, RewriteState};
use jot::commands::edit::EditError;
use jot::timestamp::Timestamp;

fn at(text: &str) -> Timestamp {
    Timestamp::parse_from_rfc3339(text).unwrap()
}

const JOURNAL: &str = "[2020-04-04T10:00:00-05:00 id=aa]\nnote @home @work\n\n\
                       [2020-04-04T10:01:00-05:00 todo not-done id=bb]\ntodo @home\n\n\
                       [2020-04-04T10:02:00-05:00 remind on 2020-04-04T12:00:00-05:00 id=cc]\ndue at noon @work\n\n\
                       [2020-04-04T10:03:00-05:00 remind on 2020-04-04T12:00:30-05:00 id=dd]\ndue soon after @Zoo\n\n\
                       [2020-04-01T10:00:00-05:00 remind on 2020-04-04T11:00:00-05:00 id=ee]\nold @home\n\n\
                       [2020-04-04T10:05:00-05:00 todo 2020-04-04T11:00:00-05:00 id=ff]\ndone @home @apple\n\n";

fn journal() -> Vec<Jot> {
    let jots = stream_jots(JOURNAL);
    assert_eq!(jots.len(), 6);
    jots
}

#[test]
fn reminders_that_are_due() {
    let jots = journal();
    let none: Vec<Timestamp> = Vec::new();
    let before = at("2020-04-04T11:58:00-05:00");
    assert_eq!(notify(&jots, &none, before), Vec::<usize>::new());
    assert_eq!(daemon_mode(&jots, &none, before), vec![]);
    let noon = at("2020-04-04T12:00:00-05:00");
    assert_eq!(notify(&jots, &none, noon), vec![2]);
    assert_eq!(daemon_mode(&jots, &none, noon), vec![(2, 0), (3, 30)]);
    let near = at("2020-04-04T11:59:01-05:00");
    assert_eq!(notify(&jots, &none, near), Vec::<usize>::new());
    assert_eq!(daemon_mode(&jots, &none, near), vec![(2, 59)]);
    let far = at("2020-04-04T11:59:00-05:00");
    assert_eq!(daemon_mode(&jots, &none, far), vec![]);
    let later = at("2020-04-04T13:00:00-05:00");
    assert_eq!(notify(&jots, &none, later), vec![2, 3]);
    let told = vec![jots[2].datetime];
    assert_eq!(notify(&jots, &told, later), vec![3]);
    let next_day = at("2020-04-05T10:02:00-05:00");
    assert_eq!(notify(&jots, &none, next_day), vec![2, 3]);
    let too_late = at("2020-04-05T10:03:01-05:00");
    assert_eq!(notify(&jots, &none, too_late), Vec::<usize>::new());
}

#[test]
fn what_to_do_about_one_entry() {
    let jots = journal();
    let none: Vec<Timestamp> = Vec::new();
    let noon = at("2020-04-04T12:00:00-05:00");
    assert_eq!(check_reminder(&jots[0], &none, noon), ReminderAction::Skip);
    assert_eq!(check_reminder(&jots[1], &none, noon), ReminderAction::Skip);
    assert_eq!(check_reminder(&jots[2], &none, noon), ReminderAction::Notify);
    assert_eq!(check_reminder(&jots[3], &none, noon), ReminderAction::Wait(30));
    assert_eq!(check_reminder(&jots[4], &none, noon), ReminderAction::Skip);
    assert_eq!(check_reminder(&jots[2], &vec![jots[2].datetime], noon), ReminderAction::Skip);
}

#[test]
fn delivered_reminders_are_kept_as_lines() {
    let a = at("2020-04-04T10:02:00-05:00");
    let b = at("2020-04-04T10:03:00+01:00");
    let mut text = String::new();
    text.push_str(&mark_notified(a));
    text.push_str("not a time\n\n");
    text.push_str(&mark_notified(b));
    assert_eq!(text, "2020-04-04T10:02:00-05:00\nnot a time\n\n2020-04-04T10:03:00+01:00\n");
    assert_eq!(load_notified(&text), vec![a, b]);
    assert!(load_notified("").is_empty());
}

fn row(tag: &str, notes: usize, todos: usize, reminders: usize) -> TagCount {
    TagCount { tag: tag.to_string(), notes, todos, reminders }
}

#[test]
fn tags_are_counted_by_kind() {
    let rows = tags_command(&journal());
    assert_eq!(
        rows,
        vec![
            row("@Zoo", 0, 0, 1),
            row("@apple", 0, 1, 0),
            row("@home", 1, 2, 1),
            row("@work", 1, 0, 1),
        ]
    );
    assert!(tags_command(&Vec::new()).is_empty());
}

#[test]
fn entries_are_picked_by_kind_and_tag() {
    let jots = journal();
    let none: Vec<String> = Vec::new();
    assert_eq!(display(&jots, "cat", &none, false), vec![0, 1, 2, 3, 4, 5]);
    assert_eq!(display(&jots, "cat", &none, true), vec![5, 4, 3, 2, 1, 0]);
    assert_eq!(display(&jots, "notes", &none, false), vec![0]);
    assert_eq!(display(&jots, "todos", &none, false), vec![1, 5]);
    assert_eq!(display(&jots, "todos", &none, true), vec![5, 1]);
    assert_eq!(display(&jots, "reminders", &none, false), vec![2, 3, 4]);
    assert_eq!(display(&jots, "other", &none, false), Vec::<usize>::new());
    let home = vec!["@home".to_string()];
    assert_eq!(display(&jots, "cat", &home, false), vec![0, 1, 4, 5]);
    let both = vec!["@home".to_string(), "@work".to_string()];
    assert_eq!(display(&jots, "cat", &both, false), vec![0]);
    assert_eq!(display(&jots, "todos", &both, false), Vec::<usize>::new());
}

#[test]
fn the_pattern_of_a_loose_search() {
    assert_eq!(search_string_to_regex(""), "");
    assert_eq!(search_string_to_regex("a"), "a");
    assert_eq!(search_string_to_regex("Ab"), "a[A-Za-z0-9]*?b");
    assert_eq!(search_string_to_regex("J o"), "j[A-Za-z0-9]*? [A-Za-z0-9]*?o");
    assert_eq!(search_string_to_regex("ÄZ"), "Ä[A-Za-z0-9]*?z");
}

#[test]
fn a_rewrite_goes_through_its_stages() {
    let change = Change::Delete { target: "bb".to_string() };
    let mut rewrite = Rewrite::begin(JOURNAL, &change).unwrap();
    assert_eq!(rewrite.state, RewriteState::Transformed);
    assert!(!rewrite.text.contains("id=bb"));
    assert_eq!(stream_jots(&rewrite.text).len(), 5);
    assert_eq!(rewrite.next_step(), Some(FileStep::WriteTemp));
    rewrite.advance(true);
    assert_eq!(rewrite.state, RewriteState::StagedToTemp);
    assert_eq!(rewrite.next_step(), Some(FileStep::ReplaceJournal));
    assert!(!rewrite.is_committed());
    rewrite.advance(true);
    assert!(rewrite.is_committed());
    assert_eq!(rewrite.next_step(), Some(FileStep::RemoveTemp));
    rewrite.advance(true);
    assert!(rewrite.is_committed());
    assert_eq!(rewrite.next_step(), None);
}

#[test]
fn a_rewrite_that_fails_leaves_the_journal() {
    let now = at("2020-04-06T12:00:00-05:00");
    let change = Change::Complete { target: "2".to_string(), now };
    // The write beside the journal fails.
    let mut rewrite = Rewrite::begin(JOURNAL, &change).unwrap();
    rewrite.advance(false);
    assert_eq!(rewrite.state, RewriteState::Aborted);
    assert_eq!(rewrite.next_step(), Some(FileStep::RemoveTemp));
    rewrite.advance(false);
    assert_eq!(rewrite.state, RewriteState::Aborted);
    assert_eq!(rewrite.next_step(), None);
    // The replacement fails.
    let mut rewrite = Rewrite::begin(JOURNAL, &change).unwrap();
    rewrite.advance(true);
    rewrite.advance(false);
    assert_eq!(rewrite.state, RewriteState::Aborted);
    assert!(!rewrite.is_committed());
    assert_eq!(rewrite.next_step(), Some(FileStep::RemoveTemp));
    // A journal that cannot be read whole is not rewritten.
    let broken = format!("{}[2020-04-04T10:31:00-05:00 todo]\nlost otherwise\n", JOURNAL);
    assert_eq!(Rewrite::begin(&broken, &change), Err(EditError::Unreadable));
    let stray = format!("kept by hand\n{}", JOURNAL);
    assert_eq!(Rewrite::begin(&stray, &change), Err(EditError::Unreadable));
    // A change that cannot be made starts no rewrite.
    let note = Change::Complete { target: "aa".to_string(), now };
    assert_eq!(Rewrite::begin(JOURNAL, &note), Err(EditError::NotATodo));
    let missing = Change::Edit { target: "zz".to_string(), message: "x".to_string() };
    assert_eq!(Rewrite::begin(JOURNAL, &missing), Err(EditError::NotFound));
    let edit = Change::Edit { target: "aa".to_string(), message: " new text ".to_string() };
    let rewrite = Rewrite::begin(JOURNAL, &edit).unwrap();
    assert!(rewrite.text.starts_with("[2020-04-04T10:00:00-05:00 id=aa]\nnew text\n\n["));
}

#[test]
fn the_file_beside_the_journal() {
    let config = jot::config::Config { journal_path: "/home/me/.jot".to_string() };
    assert_eq!(jot::config::compute_path(&config, 1_586_014_200), "/home/me/.jot.00001586014200.jot");
    assert_eq!(jot::config::compute_path(&config, 0), "/home/me/.jot.00000000000000.jot");
    assert_eq!(
        jot::config::compute_path(&config, 99_999_999_999_999),
        "/home/me/.jot.99999999999999.jot"
    );
    assert_eq!(
        jot::config::compute_path(&config, u64::MAX),
        "/home/me/.jot.18446744073709551615.jot"
    );
}

use jot::commands::edit::{
    delete_jot, edit_jot_contents, find_jot, mark_todo_complete_command, EditError,
};
use jot::jot::{encode_jots, stream_jots, Jot, MessageType};
use jot::timestamp::Timestamp;

fn time(text: &str) -> Timestamp {
    Timestamp::parse_from_rfc3339(text).unwrap()
}

fn journal() -> Vec<Jot> {
    stream_jots(
        "[2020-04-04T10:30:00-05:00 id=aa]\nfirst\n\n\
         [2020-04-04T10:31:00-05:00 todo not-done id=bb]\nsecond @home\n\n\
         [2020-04-04T10:32:00-05:00 todo 2020-04-05T10:00:00-05:00 id=3]\nthird\n\n\
         [2020-04-04T10:33:00-05:00 remind on 2020-05-01T09:00:00-05:00]\nfourth\n\n\
         [2020-04-04T10:34:00-05:00 id=bb]\nfifth\n\n",
    )
}

#[test]
fn an_entry_is_found_by_place_or_id() {
    let jots = journal();
    assert_eq!(jots.len(), 5);
    assert_eq!(find_jot(&jots, "1"), Some(0));
    assert_eq!(find_jot(&jots, "+2"), Some(1));
    assert_eq!(find_jot(&jots, "005"), Some(4));
    assert_eq!(find_jot(&jots, "aa"), Some(0));
    assert_eq!(find_jot(&jots, "bb"), Some(1));
    // A number is a place, never an id.
    assert_eq!(find_jot(&jots, "3"), Some(2));
    assert_eq!(find_jot(&jots, "0"), None);
    assert_eq!(find_jot(&jots, "6"), None);
    assert_eq!(find_jot(&jots, "99999999999999999999999999"), None);
    assert_eq!(find_jot(&jots, "zz"), None);
    assert_eq!(find_jot(&jots, ""), None);
    assert_eq!(find_jot(&jots, "+"), None);
    assert_eq!(find_jot(&jots, "-1"), None);
}

#[test]
fn deleting_keeps_the_order_of_the_rest() {
    for k in 0..5 {
        let jots = journal();
        let target = (k + 1).to_string();
        let left = delete_jot(jots.clone(), &target).unwrap();
        assert_eq!(left.len(), 4);
        let mut expected = jots.clone();
        expected.remove(k);
        assert_eq!(left, expected);
    }
    let left = delete_jot(journal(), "bb").unwrap();
    let messages: Vec<&str> = left.iter().map(|j| j.message.as_str()).collect();
    assert_eq!(messages, vec!["first", "third", "fourth", "fifth"]);
    assert_eq!(delete_jot(journal(), "nope"), Err(EditError::NotFound));
    assert_eq!(delete_jot(Vec::new(), "1"), Err(EditError::NotFound));
}

#[test]
fn a_todo_is_marked_as_done() {
    let now = time("2020-04-06T12:00:00-05:00");
    let jots = journal();
    let done = mark_todo_complete_command(jots.clone(), "bb", now).unwrap();
    assert_eq!(done.len(), 5);
    assert_eq!(done[1].msg_type, MessageType::Todo(Some(now)));
    assert_eq!(done[1].message, "second @home");
    assert_eq!(done[1].uuid, jots[1].uuid);
    for k in [0, 2, 3, 4] {
        assert_eq!(done[k], jots[k]);
    }
    let again = mark_todo_complete_command(jots.clone(), "3", now).unwrap();
    assert_eq!(again[2].msg_type, MessageType::Todo(Some(now)));
    assert_eq!(mark_todo_complete_command(jots.clone(), "aa", now), Err(EditError::NotATodo));
    assert_eq!(mark_todo_complete_command(jots.clone(), "4", now), Err(EditError::NotATodo));
    assert_eq!(mark_todo_complete_command(jots, "zz", now), Err(EditError::NotFound));
}

#[test]
fn an_entry_gets_a_new_message() {
    let jots = journal();
    let edited = edit_jot_contents(jots.clone(), "2", "  other @work \n").unwrap();
    assert_eq!(edited[1].message, "other @work");
    assert_eq!(edited[1].tags, vec!["@work".to_string()]);
    assert_eq!(edited[1].msg_type, jots[1].msg_type);
    assert_eq!(edited[1].datetime, jots[1].datetime);
    for k in [0, 2, 3, 4] {
        assert_eq!(edited[k], jots[k]);
    }
    assert_eq!(edit_jot_contents(jots.clone(), "2", " \n "), Ok(jots.clone()));
    assert_eq!(edit_jot_contents(jots, "9", "text"), Err(EditError::NotFound));
}

#[test]
fn a_rewrite_holds_the_changed_entries() {
    let now = time("2020-04-06T12:00:00-05:00");
    let changed = mark_todo_complete_command(journal(), "2", now).unwrap();
    let changed = delete_jot(changed, "aa").unwrap();
    let text = encode_jots(&changed);
    assert_eq!(
        text,
        "[2020-04-04T10:31:00-05:00 todo 2020-04-06T12:00:00-05:00 id=bb]\nsecond @home\n\n\
         [2020-04-04T10:32:00-05:00 todo 2020-04-05T10:00:00-05:00 id=3]\nthird\n\n\
         [2020-04-04T10:33:00-05:00 remind on 2020-05-01T09:00:00-05:00]\nfourth\n\n\
         [2020-04-04T10:34:00-05:00 id=bb]\nfifth\n\n"
    );
    let read = stream_jots(&text);
    assert_eq!(read.len(), 4);
    for (k, jot) in read.iter().enumerate() {
        assert_eq!(jot.id, k + 1);
        assert_eq!(jot.message, changed[k].message);
        assert_eq!(jot.msg_type, changed[k].msg_type);
    }
}

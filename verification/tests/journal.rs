use jot::commands::create::{create_note_command, create_todo_command};
use jot::commands::view::get_all_uuids;
use jot::jot::{
    append_jot, encode_jots, extract_tags, parse_jot, read_journal, stream_jots, Jot, MessageType,
};
use jot::timestamp::Timestamp;

fn time(text: &str) -> Timestamp {
    Timestamp::parse_from_rfc3339(text).unwrap()
}

fn strings(items: &[&str]) -> Vec<String> {
    items.iter().map(|s| s.to_string()).collect()
}

#[test]
fn tags_are_found_once_each() {
    assert_eq!(extract_tags("hello @world and @foo_2"), strings(&["@world", "@foo_2"]));
    assert_eq!(extract_tags("@a @b @a"), strings(&["@a", "@b"]));
    assert_eq!(extract_tags("nothing here @ @1 @_x"), strings(&[]));
    assert_eq!(extract_tags("@x@y"), strings(&["@x", "@y"]));
    assert_eq!(extract_tags("@"), strings(&[]));
}

#[test]
fn a_tag_may_start_inside_a_word() {
    assert_eq!(extract_tags("email@x"), strings(&["@x"]));
}

#[test]
fn header_of_each_kind() {
    let made = time("2020-04-04T10:30:00-05:00");
    let done = time("2020-04-05T08:00:00+02:00");
    let mut jot = Jot {
        datetime: made,
        message: "hi".to_string(),
        msg_type: MessageType::Note,
        id: 0,
        uuid: None,
        tags: vec![],
    };
    assert_eq!(jot.write_to_header_string(), "[2020-04-04T10:30:00-05:00]");
    jot.uuid = Some("ab".to_string());
    assert_eq!(jot.write_to_header_string(), "[2020-04-04T10:30:00-05:00 id=ab]");
    jot.msg_type = MessageType::Todo(None);
    assert_eq!(jot.write_to_header_string(), "[2020-04-04T10:30:00-05:00 todo not-done id=ab]");
    jot.msg_type = MessageType::Todo(Some(done));
    assert_eq!(
        jot.write_to_header_string(),
        "[2020-04-04T10:30:00-05:00 todo 2020-04-05T08:00:00+02:00 id=ab]"
    );
    jot.msg_type = MessageType::Reminder(done);
    jot.uuid = None;
    assert_eq!(
        jot.write_to_header_string(),
        "[2020-04-04T10:30:00-05:00 remind on 2020-04-05T08:00:00+02:00]"
    );
    assert_eq!(
        jot.to_string(),
        "[2020-04-04T10:30:00-05:00 remind on 2020-04-05T08:00:00+02:00]\nhi\n\n"
    );
}

#[test]
fn entry_text_is_trimmed() {
    let jot = Jot {
        datetime: time("2020-04-04T10:30:00-05:00"),
        message: "  two\nlines \n".to_string(),
        msg_type: MessageType::Note,
        id: 3,
        uuid: None,
        tags: vec![],
    };
    assert_eq!(jot.to_string(), "[2020-04-04T10:30:00-05:00]\ntwo\nlines\n\n");
    let legacy = Jot { message: "  x \n".to_string(), ..jot.clone() };
    assert_eq!(legacy.to_string().trim_end(), "[2020-04-04T10:30:00-05:00]\nx");
    assert_eq!(stream_jots(&legacy.to_string())[0].message, "x");
    let empty = Jot { message: " ".to_string(), ..jot };
    assert_eq!(empty.to_string(), "[2020-04-04T10:30:00-05:00]\n\n");
}

#[test]
fn kind_and_id_from_words() {
    assert_eq!(MessageType::from_string(""), Some((None, MessageType::Note)));
    assert_eq!(
        MessageType::from_string(" id=xyz "),
        Some((Some("xyz".to_string()), MessageType::Note))
    );
    assert_eq!(
        MessageType::from_string("todo not-done id=a=b"),
        Some((Some("b".to_string()), MessageType::Todo(None)))
    );
    assert_eq!(
        MessageType::from_string("todo 2020-04-05T08:00:00+02:00"),
        Some((None, MessageType::Todo(Some(time("2020-04-05T08:00:00+02:00")))))
    );
    assert_eq!(
        MessageType::from_string("remind on 2020-04-05T08:00:00Z id=q"),
        Some((Some("q".to_string()), MessageType::Reminder(time("2020-04-05T08:00:00+00:00"))))
    );
    assert_eq!(MessageType::from_string("todo"), None);
    assert_eq!(MessageType::from_string("todo tomorrow"), None);
    assert_eq!(MessageType::from_string("remind 2020-04-05T08:00:00Z"), None);
    assert_eq!(MessageType::from_string("remind on"), None);
    assert_eq!(MessageType::from_string("later id="), Some((Some(String::new()), MessageType::Note)));
}

#[test]
fn one_entry_is_read() {
    let jot = parse_jot("[2020-04-04T10:30:00-05:00 todo not-done id=ab] ignored", " buy @milk \n").unwrap();
    assert_eq!(jot.datetime, time("2020-04-04T10:30:00-05:00"));
    assert_eq!(jot.message, "buy @milk");
    assert_eq!(jot.msg_type, MessageType::Todo(None));
    assert_eq!(jot.id, 0);
    assert_eq!(jot.uuid, Some("ab".to_string()));
    assert_eq!(jot.tags, strings(&["@milk"]));
    assert!(parse_jot("2020-04-04T10:30:00-05:00", "x").is_none());
    assert!(parse_jot("[2020-04-04T10:30:00-05:00", "x").is_none());
    assert!(parse_jot("[2020-13-04T10:30:00-05:00]", "x").is_none());
    assert!(parse_jot("[2020-04-04T10:30:00-05:00 todo]", "x").is_none());
    assert!(parse_jot(" [2020-04-04T10:30:00-05:00]", "x").is_none());
}

#[test]
fn a_journal_is_read_in_order() {
    let text = "stray line\n[2020-04-04T10:30:00-05:00 id=aa]\nfirst\nsecond line\n\n\n\
                [2020-04-04T10:31:00-05:00 todo oops]\ndropped\n\n\
                [2020-04-04T10:32:00+01:00 todo not-done id=bb]\r\n@tagged\r\n\n\
                [2020-04-04T10:33:00-05:00 remind on 2020-05-01T09:00:00-05:00]\nlast";
    let jots = stream_jots(text);
    assert_eq!(jots.len(), 3);
    assert_eq!(jots[0].id, 1);
    assert_eq!(jots[0].message, "first\nsecond line");
    assert_eq!(jots[0].uuid, Some("aa".to_string()));
    assert_eq!(jots[1].id, 2);
    assert_eq!(jots[1].message, "@tagged");
    assert_eq!(jots[1].tags, strings(&["@tagged"]));
    assert_eq!(jots[1].datetime, time("2020-04-04T10:32:00+01:00"));
    assert_eq!(jots[2].id, 3);
    assert_eq!(jots[2].msg_type, MessageType::Reminder(time("2020-05-01T09:00:00-05:00")));
    assert_eq!(jots[2].message, "last");
    assert_eq!(get_all_uuids(&jots), strings(&["aa", "bb"]));
    assert!(stream_jots("").is_empty());
    assert!(stream_jots("no header at all\n").is_empty());
}

#[test]
fn writing_and_reading_gives_the_entries_back() {
    let text = "[2020-04-04T10:30:00-05:00 id=aa]\nfirst\nsecond line\n\n\
                [2020-04-04T10:32:00+01:00 todo 2021-01-01T00:00:00+00:00 id=bb]\n@tagged\n\n\
                [2020-04-04T10:33:00-05:00 remind on 2020-05-01T09:00:00-05:00]\nlast\n\n";
    let jots = stream_jots(text);
    assert_eq!(jots.len(), 3);
    let written = encode_jots(&jots);
    assert_eq!(written, text);
    assert_eq!(stream_jots(&written), jots);
    for jot in &jots {
        let mut alone = jot.clone();
        alone.id = 1;
        assert_eq!(stream_jots(&jot.to_string()), vec![alone]);
    }
}

#[test]
fn a_header_in_a_message_breaks_the_round_trip() {
    let jots = stream_jots("[2020-04-04T10:30:00-05:00]\n  [2020-04-05T10:30:00-05:00]\n");
    assert_eq!(jots.len(), 1);
    assert_eq!(jots[0].message, "[2020-04-05T10:30:00-05:00]");
    assert_eq!(stream_jots(&encode_jots(&jots)).len(), 2);
}

#[test]
fn new_entries() {
    let now = time("2020-04-04T10:30:00-05:00");
    let used = strings(&["aa", "ab"]);
    let note = create_note_command("  remember @this \n", now, &used).unwrap();
    assert_eq!(note.message, "remember @this");
    assert_eq!(note.msg_type, MessageType::Note);
    assert_eq!(note.datetime, now);
    assert_eq!(note.id, 0);
    assert_eq!(note.tags, strings(&["@this"]));
    let id = note.uuid.clone().unwrap();
    assert!(!used.contains(&id));
    let todo = create_todo_command("do it", now, &used).unwrap();
    assert_eq!(todo.msg_type, MessageType::Todo(None));
    assert!(create_note_command(" \n\t", now, &used).is_none());
    assert!(create_todo_command("", now, &used).is_none());
}

#[test]
fn an_entry_is_added_on_a_line_of_its_own() {
    let now = time("2020-04-04T10:30:00-05:00");
    let used = strings(&["aa"]);
    let note = create_note_command("new @note", now, &used).unwrap();
    let id = note.uuid.clone().unwrap();
    let entry = format!("[2020-04-04T10:30:00-05:00 id={}]\nnew @note\n\n", id);
    assert_eq!(append_jot("", &note), entry);
    let old = "[2020-04-01T08:00:00-05:00 id=aa]\nold";
    for (journal, between) in [
        (format!("{}\n\n", old), ""),
        (format!("{}\n", old), ""),
        (old.to_string(), "\n"),
        (format!("{}\r", old), "\r\n"),
        (format!("{}\r\n", old), ""),
        (format!("{} ", old), "\n"),
    ] {
        let text = append_jot(&journal, &note);
        assert_eq!(text, format!("{}{}{}", journal, between, entry));
        let before = stream_jots(&journal);
        let after = stream_jots(&text);
        assert_eq!(before.len(), 1);
        assert_eq!(after.len(), 2);
        assert_eq!(after[0], before[0]);
        let mut added = note.clone();
        added.id = 2;
        assert_eq!(after[1], added);
    }
    let todo = create_todo_command("do @it", now, &used).unwrap();
    let both = stream_jots(&append_jot(&append_jot(old, &note), &todo));
    assert_eq!(both.len(), 3);
    assert_eq!(both[2].msg_type, MessageType::Todo(None));
    assert_eq!(both[2].message, "do @it");
    assert_eq!(both[2].id, 3);
}

#[test]
fn a_journal_is_read_whole_or_not_at_all() {
    let good = "\n \n[2020-04-04T10:30:00-05:00 id=aa]\nfirst\n\n[2020-04-04T10:31:00-05:00]\n";
    assert_eq!(read_journal(good), Some(stream_jots(good)));
    assert_eq!(read_journal(""), Some(vec![]));
    assert_eq!(read_journal(" \n"), Some(vec![]));
    let bad_header = "[2020-04-04T10:30:00-05:00 id=aa]\nfirst\n\n[2020-04-04T10:31:00-05:00 todo]\nx\n";
    assert_eq!(stream_jots(bad_header).len(), 1);
    assert_eq!(read_journal(bad_header), None);
    let bad_date = "[2020-13-04T10:30:00-05:00]\nfirst\n";
    assert_eq!(read_journal(bad_date), None);
    let stray = "stray\n[2020-04-04T10:30:00-05:00 id=aa]\nfirst\n";
    assert_eq!(stream_jots(stray).len(), 1);
    assert_eq!(read_journal(stray), None);
    assert_eq!(read_journal("no header at all"), None);
}

#[test]
fn ids_in_use_are_given_once() {
    let jots = stream_jots(
        "[2020-04-04T10:30:00-05:00 id=bb]\na\n\n[2020-04-04T10:31:00-05:00]\nb\n\n\
         [2020-04-04T10:32:00-05:00 id=aa]\nc\n\n[2020-04-04T10:33:00-05:00 id=bb]\nd\n\n",
    );
    assert_eq!(jots.len(), 4);
    assert_eq!(get_all_uuids(&jots), strings(&["bb", "aa"]));
}

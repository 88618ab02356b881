use jot::commands::mark::{disjoint_spans, mark_matches, mark_spans};
use jot::commands::search::{
    best_matches, grep, loose_search, smallest_match, to_ascii_lowercase, GrepOutcome,
};
use jot::commands::view::{frame_bars, heading, Heading};
use jot::jot::{stream_jots, tag_spans};
use jot::timestamp::Timestamp;

fn strings(items: &[&str]) -> Vec<String> {
    items.iter().map(|s| s.to_string()).collect()
}

#[test]
fn the_smallest_match_is_the_last_of_its_size() {
    assert_eq!(smallest_match(&vec![]), None);
    assert_eq!(smallest_match(&vec![(3, 9)]), Some((3, 9)));
    assert_eq!(smallest_match(&vec![(0, 4), (5, 7), (9, 11), (12, 20)]), Some((9, 11)));
    assert_eq!(smallest_match(&vec![(0, 2), (5, 9)]), Some((0, 2)));
    assert_eq!(smallest_match(&vec![(0, 0), (5, 5)]), Some((5, 5)));
}

#[test]
fn a_loose_search_finds_the_smallest_match() {
    assert_eq!(loose_search("jt", "A Jot of text, just text"), Some(Some((2, 5))));
    assert_eq!(loose_search("JT", "jot"), Some(Some((0, 3))));
    assert_eq!(loose_search("xyz", "jot"), Some(None));
    assert_eq!(loose_search("a", "banana"), Some(Some((5, 6))));
    assert_eq!(loose_search("(", "jot"), None);
    assert_eq!(loose_search("", "jot"), Some(Some((3, 3))));
    assert_eq!(to_ascii_lowercase("Hello WÖRLD"), "hello wÖrld");
}

#[test]
fn the_best_five_hits() {
    assert_eq!(best_matches(&vec![], 3), Vec::<usize>::new());
    let sizes = vec![Some(5), None, Some(2), Some(9), Some(2), Some(3), Some(4), Some(4), Some(1)];
    // A search of three bytes: matches of six bytes and more are no hits.
    assert_eq!(best_matches(&sizes, 3), vec![8, 2, 4, 5, 6]);
    assert_eq!(best_matches(&sizes, 2), vec![8, 2, 4, 5]);
    assert_eq!(best_matches(&sizes, 1), vec![8]);
    assert_eq!(best_matches(&sizes, 0), Vec::<usize>::new());
    assert_eq!(best_matches(&sizes, usize::MAX), vec![8, 2, 4, 5, 6]);
    assert_eq!(best_matches(&vec![Some(0), Some(0)], 1), vec![0, 1]);
}

#[test]
fn every_pattern_must_match() {
    let text = "fix the fence by friday";
    assert_eq!(
        grep(&strings(&["f[a-z]+", "the"]), text),
        GrepOutcome::Found(vec![vec![(0, 3), (8, 13), (17, 23)], vec![(4, 7)]])
    );
    assert_eq!(grep(&strings(&["fence", "monday"]), text), GrepOutcome::Missing);
    assert_eq!(grep(&strings(&["monday", "fence("]), text), GrepOutcome::Invalid(1));
    assert_eq!(grep(&strings(&["[", "("]), text), GrepOutcome::Invalid(0));
    assert_eq!(grep(&strings(&[]), text), GrepOutcome::Found(vec![]));
}

#[test]
fn where_the_tags_stand() {
    assert_eq!(tag_spans("hello @world and @foo_2"), vec![(6, 12), (17, 23)]);
    assert_eq!(tag_spans("é@x@y z"), vec![(1, 3), (3, 5)]);
    assert_eq!(tag_spans("@ @1"), vec![]);
}

#[test]
fn the_age_above_an_entry() {
    let jots = stream_jots(
        "[2020-04-04T10:00:00-05:00]\nnote\n\n\
         [2020-04-04T10:00:00-05:00 todo 2020-04-04T11:59:00-05:00]\ndone\n\n\
         [2020-04-04T10:00:00-05:00 todo not-done]\nopen\n\n",
    );
    let now = Timestamp::parse_from_rfc3339("2020-04-04T12:00:00-05:00").unwrap();
    assert_eq!(
        heading(&jots[0], now),
        Heading { completed: false, amount: 2, unit: "hours".to_string() }
    );
    assert_eq!(
        heading(&jots[1], now),
        Heading { completed: true, amount: 1, unit: "minute".to_string() }
    );
    assert_eq!(
        heading(&jots[2], now),
        Heading { completed: false, amount: 2, unit: "hours".to_string() }
    );
    let earlier = Timestamp::parse_from_rfc3339("2020-04-04T09:59:58-05:00").unwrap();
    assert_eq!(
        heading(&jots[0], earlier),
        Heading { completed: false, amount: -2, unit: "seconds".to_string() }
    );
}

#[test]
fn the_bars_of_the_frame() {
    assert_eq!(frame_bars(&vec![10, 30, 20], 12), (16, 28));
    assert_eq!(frame_bars(&vec![10], 12), (0, 12));
    assert_eq!(frame_bars(&vec![14], 12), (0, 12));
    assert_eq!(frame_bars(&vec![15], 12), (1, 13));
    assert_eq!(frame_bars(&vec![], 0), (0, 0));
    assert_eq!(frame_bars(&vec![usize::MAX], 5), (usize::MAX - 7, usize::MAX - 2));
}

#[test]
fn spans_that_reach_into_each_other() {
    assert_eq!(disjoint_spans(&vec![]), vec![]);
    assert_eq!(
        disjoint_spans(&vec![vec![(8, 13), (0, 3)], vec![(4, 7), (2, 5), (13, 13), (12, 20)]]),
        vec![(0, 3), (4, 7), (8, 13), (13, 13)]
    );
    // A span that ends before it starts is no span.
    assert_eq!(disjoint_spans(&vec![vec![(5, 2), (1, 1), (1, 1)]]), vec![(1, 1), (1, 1)]);
    assert_eq!(disjoint_spans(&vec![vec![(0, 10)], vec![(0, 1), (9, 10), (10, 11)]]), vec![(0, 10), (10, 11)]);
}

#[test]
fn parts_of_a_text_are_marked() {
    assert_eq!(mark_spans("hello @world", &vec![(6, 12)], "<", ">"), "hello <@world>");
    assert_eq!(mark_spans("é@x@y z", &tag_spans("é@x@y z"), "<", ">"), "é<@x><@y> z");
    assert_eq!(mark_spans("abc", &vec![], "<", ">"), "abc");
    assert_eq!(mark_spans("abc", &vec![(0, 0), (0, 3), (3, 3)], "<", ">"), "<><abc><>");
    // Spans out of order or behind the text are passed over.
    assert_eq!(mark_spans("abcdef", &vec![(2, 4), (1, 3), (5, 9), (4, 5)], "<", ">"), "ab<cd><e>f");
    // What a search finds counts bytes.
    let text = "fix thé fence by friday";
    assert_eq!(
        mark_matches(text, &vec![vec![(0, 3), (9, 14), (18, 24)], vec![(4, 8), (10, 12)]], "<", ">"),
        "<fix> <thé> <fence> by <friday>"
    );
    // A place inside a character marks nothing.
    assert_eq!(mark_matches("é!", &vec![vec![(1, 2)], vec![(2, 3)]], "<", ">"), "é<!>");
    assert_eq!(mark_matches("é!", &vec![vec![(0, 2)]], "[", "]"), "[é]!");
    assert_eq!(mark_matches("é!", &vec![vec![(0, 9)]], "[", "]"), "é!");
}

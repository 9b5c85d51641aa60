use ckan::app::{App, Col};
use ckan::board::{lane_heights, lane_want, wrap, words};
use ckan::store::{Prompt, Store};
use ckan::tmux::{Pane, State};

fn strings(v: &[&str]) -> Vec<String> {
    v.iter().map(|s| s.to_string()).collect()
}

#[test]
fn words_split_on_any_white_space() {
    assert_eq!(words("  one\ttwo  three "), strings(&["one", "two", "three"]));
    assert!(words("   ").is_empty());
    assert!(words("").is_empty());
}

#[test]
fn wrap_keeps_words_whole_within_the_width() {
    assert_eq!(wrap("hello world foo", 8), strings(&["hello", "world", "foo"]));
    assert_eq!(wrap("aa bb cc dd", 8), strings(&["aa bb cc", "dd"]));
    assert_eq!(wrap("abcdefghijk xy", 8), strings(&["abcdefghijk", "xy"]));
    // The width is at least 8.
    assert_eq!(wrap("aa bb cc", 2), strings(&["aa bb cc"]));
}

#[test]
fn wrap_gives_a_row_per_line_and_one_for_nothing() {
    assert_eq!(wrap("", 10), strings(&[""]));
    assert_eq!(wrap("a\n\nb", 10), strings(&["a", "", "b"]));
    assert_eq!(wrap("a\r\nb\n", 10), strings(&["a", "b"]));
}

#[test]
fn lane_want_is_six_rows_a_card_between_five_and_twenty_six() {
    assert_eq!(lane_want(0), 5);
    assert_eq!(lane_want(1), 8);
    assert_eq!(lane_want(2), 14);
    assert_eq!(lane_want(4), 26);
    assert_eq!(lane_want(10), 26);
}

#[test]
fn lane_heights_fit_shrink_or_share() {
    assert_eq!(lane_heights(&vec![8, 14], 40), vec![8, 14]);
    assert_eq!(lane_heights(&vec![8, 14], 22), vec![8, 14]);
    // Proportional, with a floor of 5.
    assert_eq!(lane_heights(&vec![26, 26], 20), vec![10, 10]);
    assert_eq!(lane_heights(&vec![26, 8], 20), vec![15, 5]);
    // Not even 5 rows each: equal parts, at least 3.
    assert_eq!(lane_heights(&vec![26, 26, 26], 12), vec![4, 4, 4]);
    assert_eq!(lane_heights(&vec![26, 26, 26, 26, 26], 10), vec![3, 3, 3, 3, 3]);
    assert_eq!(lane_heights(&vec![], 10), Vec::<u16>::new());
}

#[test]
fn visible_lanes_are_those_with_cards_or_the_selection() {
    let mut st = Store::default();
    st.prompts.push(Prompt { text: "a".to_string(), lane: 3 });
    st.pane_lane.insert("%1".to_string(), 5);
    st.lane_order = vec![5, 4, 3, 2, 1, 0];
    let mut app = App::new(st);
    app.refresh(vec![Pane {
        id: "%1".to_string(),
        loc: "s:0.1".to_string(),
        window: "w".to_string(),
        title: "t".to_string(),
        state: State::Waiting,
    }]);
    assert_eq!(app.visible_lanes(), vec![5, 3]);
    assert_eq!(app.lane_cards(5), 1);
    assert_eq!(app.lane_cards(3), 1);
    assert_eq!(app.lane_cards(0), 0);
    app.move_col(1);
    // No card selected in IN PROGRESS: the lanes with cards remain.
    assert_eq!(app.col, Col::InProgress);
    assert_eq!(app.visible_lanes(), vec![5, 3]);
}

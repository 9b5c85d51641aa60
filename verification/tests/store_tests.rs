use ckan::store::{fmt_dur, Note, Prompt, Store, N_LANES};

fn names(st: &Store) -> Vec<String> {
    st.lane_names.clone()
}

#[test]
fn fmt_dur_seconds_minutes_hours() {
    assert_eq!(fmt_dur(0), "0s");
    assert_eq!(fmt_dur(31), "31s");
    assert_eq!(fmt_dur(59), "59s");
    assert_eq!(fmt_dur(60), "1m");
    assert_eq!(fmt_dur(61), "1m01s");
    assert_eq!(fmt_dur(1860), "31m");
    assert_eq!(fmt_dur(252), "4m12s");
    assert_eq!(fmt_dur(3599), "59m59s");
    assert_eq!(fmt_dur(3600), "1h");
    assert_eq!(fmt_dur(3659), "1h");
    assert_eq!(fmt_dur(7200), "2h");
    assert_eq!(fmt_dur(3720), "1h02m");
    assert_eq!(fmt_dur(90000), "25h");
    assert_eq!(fmt_dur(90060), "25h01m");
}

#[test]
fn default_store_has_six_unnamed_lanes_in_order() {
    let st = Store::default();
    assert_eq!(names(&st), vec![String::new(); N_LANES]);
    assert_eq!(st.lane_order, vec![0, 1, 2, 3, 4, 5]);
    assert!(st.prompts.is_empty());
    assert!(st.pane_lane.entries().is_empty());
    assert!(st.notes.entries().is_empty());
}

#[test]
fn fix_order_keeps_valid_entries_and_appends_missing() {
    let mut st = Store::default();
    st.lane_order = vec![5, 5, 9, 0];
    st.fix_order();
    assert_eq!(st.lane_order, vec![5, 0, 1, 2, 3, 4]);

    st.lane_order = vec![];
    st.fix_order();
    assert_eq!(st.lane_order, vec![0, 1, 2, 3, 4, 5]);
}

#[test]
fn fix_order_leaves_a_valid_order_alone() {
    let mut st = Store::default();
    st.lane_order = vec![3, 1, 4, 0, 5, 2];
    st.fix_order();
    assert_eq!(st.lane_order, vec![3, 1, 4, 0, 5, 2]);
}

#[test]
fn position_and_lane_at_position_are_inverse() {
    let mut st = Store::default();
    st.lane_order = vec![2, 0, 1, 3, 4, 5];
    assert_eq!(st.position_of(2), 0);
    assert_eq!(st.position_of(0), 1);
    assert_eq!(st.lane_at_position(0), 2);
    assert_eq!(st.lane_at_position(1), 0);
    for pos in 0..6 {
        assert_eq!(st.position_of(st.lane_at_position(pos)), pos);
    }
    // Past the order, both give the value back.
    assert_eq!(st.position_of(7), 7);
    assert_eq!(st.lane_at_position(8), 8);
}

#[test]
fn swap_lane_moves_and_moves_back() {
    let mut st = Store::default();
    assert!(!st.swap_lane(0, false));
    assert_eq!(st.lane_order, vec![0, 1, 2, 3, 4, 5]);
    assert!(st.swap_lane(0, true));
    assert_eq!(st.lane_order, vec![1, 0, 2, 3, 4, 5]);
    assert_eq!(st.position_of(0), 1);
    assert!(st.swap_lane(0, false));
    assert_eq!(st.lane_order, vec![0, 1, 2, 3, 4, 5]);
    assert!(!st.swap_lane(5, true));
    assert_eq!(st.lane_order, vec![0, 1, 2, 3, 4, 5]);
}

#[test]
fn lane_label_numbers_from_one_and_upper_cases() {
    let mut st = Store::default();
    assert_eq!(st.lane_label(0), "1 · (sin nombre)");
    st.lane_names[1] = "backend".to_string();
    assert_eq!(st.lane_label(1), "2 · BACKEND");
    st.lane_names[2] = "   ".to_string();
    assert_eq!(st.lane_label(2), "3 · (sin nombre)");
    st.lane_names[3] = "ñandú api".to_string();
    assert_eq!(st.lane_label(3), "4 · ÑANDÚ API");
    // Past the names, no name.
    assert_eq!(st.lane_label(9), "10 · (sin nombre)");
}

#[test]
fn lane_of_defaults_to_zero() {
    let mut st = Store::default();
    st.pane_lane.insert("%1".to_string(), 3);
    assert_eq!(st.lane_of("%1"), 3);
    assert_eq!(st.lane_of("%2"), 0);
}

#[test]
fn save_drops_entries_of_closed_panes() {
    let mut st = Store::default();
    st.pane_lane.insert("%1".to_string(), 3);
    st.pane_lane.insert("%2".to_string(), 4);
    st.notes.insert(
        "%2".to_string(),
        Note { doing: "a".to_string(), next: String::new(), touched: 5 },
    );
    st.notes.insert(
        "%3".to_string(),
        Note { doing: "b".to_string(), next: String::new(), touched: 5 },
    );
    st.prompts.push(Prompt { text: "kept".to_string(), lane: 1 });
    st.save(&["%2".to_string()]);
    assert_eq!(st.lane_of("%1"), 0);
    assert_eq!(st.lane_of("%2"), 4);
    assert!(st.notes.get(&"%3".to_string()).is_none());
    assert_eq!(st.notes.get(&"%2".to_string()).unwrap().doing, "a");
    assert_eq!(st.prompts.len(), 1);
}

#[test]
fn load_without_a_file_gives_the_default() {
    let st = Store::load(None);
    assert_eq!(names(&st), vec![String::new(); N_LANES]);
    assert_eq!(st.lane_order, vec![0, 1, 2, 3, 4, 5]);
}

#[test]
fn load_repairs_names_and_order() {
    let mut saved = Store::default();
    saved.lane_names = vec!["a".to_string(), "b".to_string(), "c".to_string()];
    saved.lane_order = vec![7, 1, 1];
    saved.prompts.push(Prompt { text: "p".to_string(), lane: 2 });
    let st = Store::load(Some(saved));
    assert_eq!(
        names(&st),
        vec!["a", "b", "c", "", "", ""].into_iter().map(String::from).collect::<Vec<_>>()
    );
    assert_eq!(st.lane_order, vec![1, 0, 2, 3, 4, 5]);
    assert_eq!(st.prompts.len(), 1);

    let mut long = Store::default();
    long.lane_names = (0..9).map(|i| format!("n{}", i)).collect();
    let st = Store::load(Some(long));
    assert_eq!(st.lane_names.len(), N_LANES);
    assert_eq!(st.lane_names[5], "n5");
}

#[test]
fn validity_needs_every_lane_once_and_six_names() {
    let mut st = Store::default();
    assert!(st.is_valid());
    st.lane_order = vec![0, 0, 1, 2, 3, 4];
    assert!(!st.is_valid());
    st.lane_order = vec![0, 1, 2, 3, 4, 9];
    assert!(!st.is_valid());
    st.lane_order = vec![0, 1, 2, 3, 4];
    assert!(!st.is_valid());
    st.lane_order = vec![5, 4, 3, 2, 1, 0];
    assert!(st.is_valid());
    st.lane_names.pop();
    assert!(!st.is_valid());
}

use ckan::app::{App, Col, Effect, Mode};
use ckan::store::{Note, Prompt, Store};
use ckan::tmux::{Pane, State};

fn pane(id: &str, loc: &str, title: &str, state: State) -> Pane {
    Pane {
        id: id.to_string(),
        loc: loc.to_string(),
        window: format!("w{}", id),
        title: title.to_string(),
        state,
    }
}

fn prompt(text: &str, lane: usize) -> Prompt {
    Prompt { text: text.to_string(), lane }
}

fn board_with_prompts(texts: &[(&str, usize)]) -> App {
    let mut st = Store::default();
    for (t, l) in texts {
        st.prompts.push(prompt(t, *l));
    }
    App::new(st)
}

#[test]
fn new_board_starts_ready_on_todo() {
    let app = App::new(Store::default());
    assert!(matches!(app.mode, Mode::Board));
    assert_eq!(app.status, "ready");
    assert_eq!(app.col, Col::Todo);
    assert_eq!(app.row, 0);
    assert!(!app.should_quit);
    assert!(app.panes.is_empty());
    assert!(app.effects.is_empty());
    assert_eq!(app.selected(), None);
}

#[test]
fn col_positions_round_trip() {
    for c in [Col::Todo, Col::InProgress, Col::Waiting] {
        assert_eq!(Col::from_idx(c.idx()), c);
    }
    assert_eq!(Col::from_idx(7), Col::Waiting);
}

#[test]
fn prompts_and_cells_follow_painting_order() {
    let mut app = board_with_prompts(&[("a", 1), ("b", 0), ("c", 1)]);
    assert_eq!(app.prompts_in(1), vec![0, 2]);
    assert_eq!(app.prompts_in(0), vec![1]);
    assert_eq!(app.column_cells(Col::Todo), vec![(0, 1), (1, 0), (1, 2)]);
    app.store.lane_order = vec![1, 0, 2, 3, 4, 5];
    assert_eq!(app.column_cells(Col::Todo), vec![(1, 0), (1, 2), (0, 1)]);
    assert_eq!(app.selected(), Some((1, 0)));
}

#[test]
fn timers_start_at_first_sight_and_restart_on_transitions() {
    let mut app = App::new(Store::default());
    app.clock = 100;
    app.refresh(vec![pane("%1", "s:0.1", "⠋ a", State::Working)]);
    assert_eq!(app.elapsed("%1"), Some(0));
    app.clock = 160;
    assert_eq!(app.elapsed("%1"), Some(60));
    app.refresh(vec![pane("%1", "s:0.1", "a", State::Working)]);
    assert_eq!(app.elapsed("%1"), Some(60));
    app.clock = 200;
    app.refresh(vec![pane("%1", "s:0.1", "a", State::Waiting)]);
    assert_eq!(app.elapsed("%1"), Some(0));
    app.clock = 230;
    app.refresh(vec![pane("%2", "s:0.2", "b", State::Waiting)]);
    assert_eq!(app.elapsed("%1"), None);
    assert_eq!(app.elapsed("%2"), Some(0));
    assert_eq!(app.live_ids(), vec!["%2".to_string()]);
}

#[test]
fn panes_in_puts_the_longest_waiting_first() {
    let mut app = App::new(Store::default());
    app.clock = 10;
    app.refresh(vec![pane("%1", "s:0.1", "a", State::Waiting)]);
    app.clock = 50;
    app.refresh(vec![
        pane("%1", "s:0.1", "a", State::Waiting),
        pane("%2", "s:0.2", "b", State::Waiting),
        pane("%3", "s:0.3", "c", State::Working),
    ]);
    assert_eq!(app.panes_in(0, Col::Waiting), vec![0, 1]);
    app.clock = 60;
    app.refresh(vec![
        pane("%2", "s:0.2", "b", State::Waiting),
        pane("%1", "s:0.1", "a", State::Waiting),
    ]);
    // %1 has waited since 10, %2 since 50.
    assert_eq!(app.panes_in(0, Col::Waiting), vec![1, 0]);
    assert_eq!(app.panes_in(0, Col::InProgress), Vec::<usize>::new());
    assert_eq!(app.panes_in(0, Col::Todo), Vec::<usize>::new());
}

#[test]
fn rows_wrap_around_and_columns_clamp() {
    let mut app = board_with_prompts(&[("a", 0), ("b", 0), ("c", 0)]);
    app.move_row(1);
    assert_eq!(app.row, 1);
    app.move_row(1);
    app.move_row(1);
    assert_eq!(app.row, 0);
    app.move_row(-1);
    assert_eq!(app.row, 2);
    app.move_col(-1);
    assert_eq!(app.col, Col::Todo);
    assert_eq!(app.row, 2);
    app.move_col(1);
    assert_eq!(app.col, Col::InProgress);
    assert_eq!(app.row, 0);
    app.move_col(1);
    app.move_col(1);
    assert_eq!(app.col, Col::Waiting);
}

#[test]
fn two_sub_columns_move_sideways_first() {
    let mut app = board_with_prompts(&[("a", 0), ("b", 0), ("c", 0), ("d", 0)]);
    app.section_cols = 2;
    // Left: a, b; right: c, d.
    app.row = 1;
    app.move_col(1);
    assert_eq!(app.col, Col::Todo);
    assert_eq!(app.row, 3);
    app.move_row(1);
    assert_eq!(app.row, 2);
    app.move_col(1);
    assert_eq!(app.col, Col::InProgress);
}

#[test]
fn number_keys_assign_by_painted_position() {
    let mut app = board_with_prompts(&[("a", 0)]);
    app.store.lane_order = vec![0, 4, 1, 2, 3, 5];
    app.assign_lane(1);
    assert_eq!(app.store.prompts[0].lane, 4);
    assert_eq!(app.status, "→ 5 · (sin nombre)");
    assert_eq!(app.effects, vec![Effect::Save]);
    assert_eq!(app.selected(), Some((4, 0)));
}

#[test]
fn assigning_a_pane_records_its_lane() {
    let mut app = App::new(Store::default());
    app.refresh(vec![pane("%1", "s:0.1", "a", State::Working)]);
    app.move_col(1);
    assert_eq!(app.selected(), Some((0, 0)));
    app.store.lane_names[2] = "ops".to_string();
    app.assign_lane(2);
    assert_eq!(app.store.lane_of("%1"), 2);
    assert_eq!(app.status, "→ 3 · OPS");
}

#[test]
fn moving_a_lane_keeps_the_selection_on_the_card() {
    let mut app = board_with_prompts(&[("a", 0), ("b", 1)]);
    app.row = 1;
    assert_eq!(app.selected(), Some((1, 1)));
    app.move_lane(false);
    assert_eq!(app.store.lane_order, vec![1, 0, 2, 3, 4, 5]);
    assert_eq!(app.selected(), Some((1, 1)));
    assert_eq!(app.row, 0);
    assert_eq!(app.status, "2 · (sin nombre) → position 1");
    assert_eq!(app.store.prompts[1].lane, 1);
    app.move_lane(false);
    assert_eq!(app.status, "already the first swimlane");
    app.move_lane(true);
    assert_eq!(app.store.lane_order, vec![0, 1, 2, 3, 4, 5]);
}

#[test]
fn moving_nothing_says_so() {
    let mut app = App::new(Store::default());
    app.move_lane(true);
    assert_eq!(app.status, "nothing selected");
    assert!(app.effects.is_empty());
}

#[test]
fn committing_prompts_trims_and_deletes_blank_edits() {
    let mut app = board_with_prompts(&[("a", 3)]);
    app.commit_prompt(None, "  hello  \n".to_string());
    assert_eq!(app.store.prompts.len(), 2);
    assert_eq!(app.store.prompts[1].text, "  hello");
    assert_eq!(app.store.prompts[1].lane, 3);
    assert_eq!(app.status, "prompt saved");
    app.commit_prompt(Some(0), "edited".to_string());
    assert_eq!(app.store.prompts[0].text, "edited");
    assert_eq!(app.store.prompts[0].lane, 3);
    app.commit_prompt(Some(0), " \n\t".to_string());
    assert_eq!(app.store.prompts.len(), 1);
    assert_eq!(app.status, "prompt deleted");
    app.commit_prompt(None, "   ".to_string());
    assert_eq!(app.store.prompts.len(), 1);
    assert!(matches!(app.mode, Mode::Board));
}

#[test]
fn editing_opens_the_prompt_with_the_cursor_at_its_end() {
    let mut app = board_with_prompts(&[("héllo", 0)]);
    app.start_edit();
    match &app.mode {
        Mode::PromptEdit { idx, buf, cur } => {
            assert_eq!(*idx, Some(0));
            assert_eq!(buf, "héllo");
            assert_eq!(*cur, 6);
        },
        _ => panic!("not editing"),
    }
}

#[test]
fn notes_are_trimmed_stamped_and_removed_when_blank() {
    let mut app = App::new(Store::default());
    app.refresh(vec![pane("%1", "s:0.1", "a", State::Waiting)]);
    app.clock = 777;
    app.commit_note("%1".to_string(), "  doing it ".to_string(), "then".to_string());
    let n = app.store.notes.get(&"%1".to_string()).unwrap();
    assert_eq!(n.doing, "doing it");
    assert_eq!(n.next, "then");
    assert_eq!(n.touched, 777);
    assert_eq!(app.status, "note saved");
    app.commit_note("%1".to_string(), " ".to_string(), "".to_string());
    assert!(app.store.notes.get(&"%1".to_string()).is_none());
}

#[test]
fn editing_a_pane_opens_its_note() {
    let mut app = App::new(Store::default());
    app.refresh(vec![pane("%1", "s:0.1", "a", State::Waiting)]);
    app.store.notes.insert(
        "%1".to_string(),
        Note { doing: "x".to_string(), next: "y".to_string(), touched: 1 },
    );
    app.move_col(1);
    app.move_col(1);
    app.start_edit();
    match &app.mode {
        Mode::NoteEdit { pane, doing, next, field } => {
            assert_eq!(pane, "%1");
            assert_eq!(doing, "x");
            assert_eq!(next, "y");
            assert_eq!(*field, 0);
        },
        _ => panic!("not editing the note"),
    }
}

#[test]
fn only_todo_prompts_are_deleted_copied_or_sent() {
    let mut app = board_with_prompts(&[("first", 0), ("second", 0)]);
    app.copy_selected();
    assert_eq!(app.effects, vec![Effect::Copy { text: "first".to_string() }]);
    assert_eq!(app.status, "copied (OSC52 + tmux buffer: prefix+])");
    app.delete_selected();
    assert_eq!(app.store.prompts.len(), 1);
    assert_eq!(app.store.prompts[0].text, "second");
    assert_eq!(app.status, "prompt deleted");
    app.focus_selected();
    assert_eq!(app.status, "[s] sends the prompt to a pane");
    app.start_send();
    assert_eq!(app.status, "no agent panes to send to");

    app.refresh(vec![pane("%1", "s:0.1", "a", State::Working)]);
    app.move_col(1);
    app.delete_selected();
    assert_eq!(app.status, "only TODO prompts can be deleted");
    app.copy_selected();
    assert_eq!(app.status, "nothing to copy here");
    app.start_send();
    assert_eq!(app.status, "only TODO prompts can be sent");
}

#[test]
fn focusing_a_pane_asks_tmux_to_jump() {
    let mut app = App::new(Store::default());
    app.refresh(vec![pane("%9", "main:1.2", "a", State::Working)]);
    app.move_col(1);
    app.focus_selected();
    assert_eq!(app.effects, vec![Effect::Focus { pane: "%9".to_string() }]);
    assert_eq!(app.status, "→ main:1.2");
}

#[test]
fn send_targets_put_the_prompts_lane_first_then_waiting_panes() {
    let mut st = Store::default();
    st.prompts.push(prompt("do it", 2));
    st.pane_lane.insert("%2".to_string(), 2);
    st.pane_lane.insert("%3".to_string(), 2);
    let mut app = App::new(st);
    app.refresh(vec![
        pane("%1", "s:0.1", "other", State::Waiting),
        pane("%2", "s:0.2", "busy", State::Working),
        pane("%3", "s:0.3", "idle", State::Waiting),
        pane("%4", "s:0.4", "far", State::Working),
    ]);
    app.start_send();
    match &app.mode {
        Mode::SendConfirm { prompt_idx, targets, sel } => {
            assert_eq!(*prompt_idx, 0);
            assert_eq!(*sel, 0);
            let ids: Vec<&str> = targets.iter().map(|t| t.0.as_str()).collect();
            assert_eq!(ids, vec!["%3", "%2", "%1", "%4"]);
            assert_eq!(targets[0].1, "▸ s:0.3  w%3  idle · waiting for you");
            assert_eq!(targets[1].1, "▸ s:0.2  w%2  busy · working");
            assert_eq!(targets[2].1, "  s:0.1  w%1  other · waiting for you");
        },
        _ => panic!("not confirming"),
    }
}

#[test]
fn sending_types_without_enter_and_leaves_a_note() {
    let long_line = "x".repeat(100);
    let text = format!("{}\nsecond line", long_line);
    let mut app = board_with_prompts(&[(&text, 0)]);
    app.refresh(vec![pane("%5", "s:0.5", "a", State::Waiting)]);
    app.clock = 42;
    app.do_send(0, "%5".to_string());
    assert_eq!(
        app.effects,
        vec![
            Effect::Type { pane: "%5".to_string(), text: text.clone() },
            Effect::Save,
            Effect::Focus { pane: "%5".to_string() },
        ]
    );
    assert!(app.store.prompts.is_empty());
    let n = app.store.notes.get(&"%5".to_string()).unwrap();
    assert_eq!(n.doing, "x".repeat(80));
    assert_eq!(n.touched, 42);
    assert_eq!(app.status, "typed into the pane — press Enter there to run it");
}

#[test]
fn renaming_trims_the_name() {
    let mut app = board_with_prompts(&[("a", 2)]);
    app.start_rename();
    match &app.mode {
        Mode::LaneRename { lane, buf } => {
            assert_eq!(*lane, 2);
            assert_eq!(buf, "");
        },
        _ => panic!("not renaming"),
    }
    app.commit_rename(2, "  front  ".to_string());
    assert_eq!(app.store.lane_names[2], "front");
    assert_eq!(app.status, "swimlane renamed");
    assert_eq!(app.store.lane_label(2), "3 · FRONT");
}

#[test]
fn persisting_drops_data_of_closed_panes() {
    let mut st = Store::default();
    st.pane_lane.insert("%old".to_string(), 1);
    st.pane_lane.insert("%1".to_string(), 2);
    let mut app = App::new(st);
    app.refresh(vec![pane("%1", "s:0.1", "a", State::Waiting)]);
    app.persist();
    assert_eq!(app.store.lane_of("%old"), 0);
    assert_eq!(app.store.lane_of("%1"), 2);
    assert_eq!(app.effects, vec![Effect::Save]);
}

#[test]
fn well_formedness_checks_the_open_editor() {
    let mut app = board_with_prompts(&[("a", 0)]);
    assert!(app.is_well_formed());
    app.mode = Mode::PromptEdit { idx: Some(0), buf: "ab".to_string(), cur: 2 };
    assert!(app.is_well_formed());
    app.mode = Mode::PromptEdit { idx: Some(0), buf: "ab".to_string(), cur: 1 };
    assert!(!app.is_well_formed());
    app.mode = Mode::PromptEdit { idx: Some(1), buf: String::new(), cur: 0 };
    assert!(!app.is_well_formed());
    app.mode = Mode::NoteEdit {
        pane: "%1".to_string(),
        doing: String::new(),
        next: String::new(),
        field: 2,
    };
    assert!(!app.is_well_formed());
    app.mode = Mode::LaneRename { lane: 6, buf: String::new() };
    assert!(!app.is_well_formed());
    app.mode = Mode::SendConfirm { prompt_idx: 0, targets: vec![], sel: 0 };
    assert!(app.is_well_formed());
    app.mode = Mode::Board;
    app.store.lane_order = vec![0, 1];
    assert!(!app.is_well_formed());
}

#[test]
fn reading_the_clock_changes_only_the_clock() {
    let mut app = board_with_prompts(&[("a", 0)]);
    app.read_clock();
    assert!(app.clock > 1_600_000_000);
    assert_eq!(app.store.prompts.len(), 1);
    assert_eq!(app.status, "ready");
}

#[test]
fn a_row_step_and_its_reverse_return_to_the_card() {
    let mut app = board_with_prompts(&[("a", 0), ("b", 1), ("c", 1), ("d", 3), ("e", 3)]);
    app.section_cols = 2;
    for start in 0..5 {
        for d in [1, -1] {
            app.row = start;
            app.move_row(d);
            app.move_row(-d);
            assert_eq!(app.row, start);
        }
    }
}

#[test]
fn every_card_shows_once_in_its_column() {
    let mut st = Store::default();
    st.lane_order = vec![4, 2, 0, 1, 3, 5];
    for (i, lane) in [3usize, 0, 5, 0, 2, 4].iter().enumerate() {
        st.prompts.push(prompt(&format!("p{}", i), *lane));
    }
    let app = App::new(st);
    let mut seen: Vec<usize> = app.column_cells(Col::Todo).iter().map(|c| c.1).collect();
    seen.sort();
    assert_eq!(seen, vec![0, 1, 2, 3, 4, 5]);
}

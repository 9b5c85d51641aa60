use ckan::app::{App, Effect, Mode};
use ckan::keys::{board_action_of, on_key, Action, Key, KeyPress};
use ckan::store::{Prompt, Store};
use ckan::tmux::{Pane, State};

fn key(code: Key) -> KeyPress {
    KeyPress { code, ctrl: false, shift: false }
}

fn ch(c: char) -> KeyPress {
    key(Key::Char(c))
}

fn ctrl(c: char) -> KeyPress {
    KeyPress { code: Key::Char(c), ctrl: true, shift: false }
}

fn shift(code: Key) -> KeyPress {
    KeyPress { code, ctrl: false, shift: true }
}

fn typed(app: &mut App, s: &str) {
    for c in s.chars() {
        on_key(app, ch(c));
    }
}

fn pane(id: &str, state: State) -> Pane {
    Pane {
        id: id.to_string(),
        loc: format!("s:{}", id),
        window: "w".to_string(),
        title: "t".to_string(),
        state,
    }
}

#[test]
fn board_bindings() {
    assert_eq!(board_action_of(ch('q')), Some(Action::Quit));
    assert_eq!(board_action_of(ch('?')), Some(Action::Help));
    assert_eq!(board_action_of(ch('h')), Some(Action::MoveCol(-1)));
    assert_eq!(board_action_of(key(Key::Right)), Some(Action::MoveCol(1)));
    assert_eq!(board_action_of(key(Key::Up)), Some(Action::MoveRow(-1)));
    assert_eq!(board_action_of(ch('j')), Some(Action::MoveRow(1)));
    assert_eq!(board_action_of(ch('1')), Some(Action::Assign(0)));
    assert_eq!(board_action_of(ch('6')), Some(Action::Assign(5)));
    assert_eq!(board_action_of(ch('7')), None);
    assert_eq!(board_action_of(ch('J')), Some(Action::MoveLane(true)));
    assert_eq!(board_action_of(ch('K')), Some(Action::MoveLane(false)));
    assert_eq!(board_action_of(shift(Key::Down)), Some(Action::MoveLane(true)));
    assert_eq!(board_action_of(shift(Key::Up)), Some(Action::MoveLane(false)));
    assert_eq!(board_action_of(ch('n')), Some(Action::NewPrompt));
    assert_eq!(board_action_of(ch('e')), Some(Action::Edit));
    assert_eq!(board_action_of(ch('d')), Some(Action::Delete));
    assert_eq!(board_action_of(ch('y')), Some(Action::CopyPrompt));
    assert_eq!(board_action_of(ch('s')), Some(Action::Send));
    assert_eq!(board_action_of(ch('R')), Some(Action::Rename));
    assert_eq!(board_action_of(ch('r')), Some(Action::Refresh));
    assert_eq!(board_action_of(key(Key::Enter)), Some(Action::Focus));
    assert_eq!(board_action_of(ch('x')), None);
    assert_eq!(board_action_of(key(Key::Esc)), None);
    assert_eq!(board_action_of(key(Key::Other)), None);
}

#[test]
fn typing_a_new_prompt_and_saving_it() {
    let mut app = App::new(Store::default());
    on_key(&mut app, ch('n'));
    typed(&mut app, "hé");
    match &app.mode {
        Mode::PromptEdit { idx, buf, cur } => {
            assert_eq!(*idx, None);
            assert_eq!(buf, "hé");
            assert_eq!(*cur, 3);
        },
        _ => panic!("not editing"),
    }
    on_key(&mut app, key(Key::Enter));
    typed(&mut app, "xy");
    on_key(&mut app, key(Key::Backspace));
    on_key(&mut app, key(Key::Tab));
    match &app.mode {
        Mode::PromptEdit { buf, cur, .. } => {
            assert_eq!(buf, "hé\nx");
            assert_eq!(*cur, 5);
        },
        _ => panic!("not editing"),
    }
    on_key(&mut app, ctrl('s'));
    assert!(matches!(app.mode, Mode::Board));
    assert_eq!(app.store.prompts.len(), 1);
    assert_eq!(app.store.prompts[0].text, "hé\nx");
    assert_eq!(app.status, "prompt saved");
    assert_eq!(app.effects, vec![Effect::Save]);
}

#[test]
fn backspace_on_an_empty_editor_does_nothing() {
    let mut app = App::new(Store::default());
    on_key(&mut app, ch('n'));
    on_key(&mut app, key(Key::Backspace));
    match &app.mode {
        Mode::PromptEdit { buf, cur, .. } => {
            assert_eq!(buf, "");
            assert_eq!(*cur, 0);
        },
        _ => panic!("not editing"),
    }
}

#[test]
fn escape_leaves_an_editor_without_saving() {
    let mut app = App::new(Store::default());
    on_key(&mut app, ch('n'));
    typed(&mut app, "draft");
    on_key(&mut app, key(Key::Esc));
    assert!(matches!(app.mode, Mode::Board));
    assert!(app.store.prompts.is_empty());
    assert!(app.effects.is_empty());
    assert_eq!(app.status, "ready");
}

#[test]
fn note_editor_switches_fields_and_saves_on_enter() {
    let mut app = App::new(Store::default());
    app.refresh(vec![pane("%1", State::Waiting)]);
    app.clock = 99;
    on_key(&mut app, key(Key::Right));
    on_key(&mut app, ch('l'));
    on_key(&mut app, ch('e'));
    typed(&mut app, "ab");
    on_key(&mut app, key(Key::Backspace));
    on_key(&mut app, key(Key::Tab));
    typed(&mut app, "cd");
    match &app.mode {
        Mode::NoteEdit { doing, next, field, .. } => {
            assert_eq!(doing, "a");
            assert_eq!(next, "cd");
            assert_eq!(*field, 1);
        },
        _ => panic!("not editing the note"),
    }
    on_key(&mut app, key(Key::Up));
    match &app.mode {
        Mode::NoteEdit { field, .. } => assert_eq!(*field, 0),
        _ => panic!("not editing the note"),
    }
    on_key(&mut app, key(Key::Enter));
    assert!(matches!(app.mode, Mode::Board));
    let n = app.store.notes.get(&"%1".to_string()).unwrap();
    assert_eq!(n.doing, "a");
    assert_eq!(n.next, "cd");
    assert_eq!(n.touched, 99);
    assert_eq!(app.status, "note saved");
}

#[test]
fn renaming_a_lane_from_the_keyboard() {
    let mut st = Store::default();
    st.prompts.push(Prompt { text: "p".to_string(), lane: 4 });
    st.lane_names[4] = "old".to_string();
    let mut app = App::new(st);
    on_key(&mut app, ch('R'));
    for _ in 0..3 {
        on_key(&mut app, key(Key::Backspace));
    }
    typed(&mut app, " new ");
    on_key(&mut app, key(Key::Enter));
    assert_eq!(app.store.lane_names[4], "new");
    assert_eq!(app.status, "swimlane renamed");
}

#[test]
fn choosing_a_target_stops_at_the_ends() {
    let mut st = Store::default();
    st.prompts.push(Prompt { text: "go".to_string(), lane: 0 });
    let mut app = App::new(st);
    app.refresh(vec![pane("%1", State::Waiting), pane("%2", State::Working)]);
    on_key(&mut app, ch('s'));
    on_key(&mut app, key(Key::Up));
    on_key(&mut app, key(Key::Down));
    on_key(&mut app, key(Key::Down));
    on_key(&mut app, key(Key::Down));
    match &app.mode {
        Mode::SendConfirm { sel, .. } => assert_eq!(*sel, 1),
        _ => panic!("not confirming"),
    }
    on_key(&mut app, key(Key::Enter));
    assert!(matches!(app.mode, Mode::Board));
    assert_eq!(
        app.effects,
        vec![
            Effect::Type { pane: "%2".to_string(), text: "go".to_string() },
            Effect::Save,
            Effect::Focus { pane: "%2".to_string() },
        ]
    );
    assert!(app.store.prompts.is_empty());
}

#[test]
fn cancelling_a_send() {
    let mut st = Store::default();
    st.prompts.push(Prompt { text: "go".to_string(), lane: 0 });
    let mut app = App::new(st);
    app.refresh(vec![pane("%1", State::Waiting)]);
    on_key(&mut app, ch('s'));
    on_key(&mut app, key(Key::Esc));
    assert!(matches!(app.mode, Mode::Board));
    assert_eq!(app.status, "envio cancelado");
    assert_eq!(app.store.prompts.len(), 1);
    assert!(app.effects.is_empty());
}

#[test]
fn help_opens_and_closes() {
    let mut app = App::new(Store::default());
    on_key(&mut app, ch('?'));
    assert!(matches!(app.mode, Mode::Help));
    on_key(&mut app, ch('x'));
    assert!(matches!(app.mode, Mode::Help));
    on_key(&mut app, ch('q'));
    assert!(matches!(app.mode, Mode::Board));
    assert!(!app.should_quit);
    on_key(&mut app, ch('q'));
    assert!(app.should_quit);
}

#[test]
fn refresh_key_asks_the_runner() {
    let mut app = App::new(Store::default());
    on_key(&mut app, ch('r'));
    assert_eq!(app.effects, vec![Effect::Refresh]);
    assert_eq!(app.status, "refrescado");
}

#[test]
fn shift_arrows_move_the_lane() {
    let mut st = Store::default();
    st.prompts.push(Prompt { text: "p".to_string(), lane: 0 });
    let mut app = App::new(st);
    on_key(&mut app, shift(Key::Down));
    assert_eq!(app.store.lane_order, vec![1, 0, 2, 3, 4, 5]);
    on_key(&mut app, ch('K'));
    assert_eq!(app.store.lane_order, vec![0, 1, 2, 3, 4, 5]);
    on_key(&mut app, ch('3'));
    assert_eq!(app.store.prompts[0].lane, 2);
}

#[test]
fn keys_that_change_the_board_ask_for_a_save() {
    let mut st = Store::default();
    st.prompts.push(Prompt { text: "p".to_string(), lane: 0 });
    let mut app = App::new(st);
    on_key(&mut app, ch('2'));
    assert_eq!(app.store.prompts[0].lane, 1);
    assert_eq!(app.effects, vec![Effect::Save]);
    on_key(&mut app, ch('j'));
    on_key(&mut app, ch('?'));
    on_key(&mut app, key(Key::Esc));
    assert_eq!(app.effects, vec![Effect::Save]);
    on_key(&mut app, ch('J'));
    assert_eq!(app.store.lane_order, vec![0, 2, 1, 3, 4, 5]);
    assert_eq!(app.effects, vec![Effect::Save, Effect::Save]);
    on_key(&mut app, ch('d'));
    assert!(app.store.prompts.is_empty());
    assert_eq!(app.effects, vec![Effect::Save, Effect::Save, Effect::Save]);
}

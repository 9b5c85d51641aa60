use ckan::app::{App, Col};
use ckan::cards::{prompt_card_lines, target_entry, Piece, Tone};
use ckan::store::{Note, Prompt, Store};
use ckan::tmux::{Pane, State};

fn p(tone: Tone, text: &str) -> Piece {
    Piece { tone, text: text.to_string() }
}

#[test]
fn a_short_prompt_card() {
    let lines = prompt_card_lines("one two", false, 20);
    assert_eq!(
        lines,
        vec![vec![p(Tone::Bar, "▏"), p(Tone::Plain, " "), p(Tone::Dim, "one two")], vec![]]
    );
}

#[test]
fn a_long_prompt_card_is_cut_after_four_rows() {
    let lines = prompt_card_lines("a\nb\nc\nd\ne", true, 20);
    assert_eq!(lines.len(), 6);
    assert_eq!(lines[0], vec![p(Tone::BarBold, "▐"), p(Tone::Plain, " "), p(Tone::Bold, "a")]);
    assert_eq!(lines[3][2], p(Tone::Bold, "d"));
    assert_eq!(lines[4], vec![p(Tone::BarBold, "▐"), p(Tone::Faint, " …")]);
    assert!(lines[5].is_empty());
}

fn board() -> App {
    let mut st = Store::default();
    st.prompts.push(Prompt { text: "todo item".to_string(), lane: 0 });
    let mut app = App::new(st);
    app.clock = 1000;
    app.refresh(vec![Pane {
        id: "%1".to_string(),
        loc: "main:0.1".to_string(),
        window: "api".to_string(),
        title: "Fixing the parser".to_string(),
        state: State::Waiting,
    }]);
    app
}

#[test]
fn a_pane_card_without_note() {
    let mut app = board();
    app.clock = 1031;
    let lines = app.pane_card(0, 0, Col::Waiting, 40);
    assert_eq!(
        lines,
        vec![
            vec![
                p(Tone::Bar, "▏"),
                p(Tone::Plain, " "),
                p(Tone::Text, "api"),
                p(Tone::Faint, "  main:0.1"),
            ],
            vec![p(Tone::Bar, "▏"), p(Tone::Plain, " "), p(Tone::Dim, "Fixing the parser")],
            vec![p(Tone::Bar, "▏"), p(Tone::Faint, " · sin nota")],
            vec![p(Tone::Bar, "▏"), p(Tone::Plain, " "), p(Tone::Faint, "31s")],
            vec![],
        ]
    );
}

#[test]
fn a_pane_card_flags_long_waits_and_stale_notes() {
    let mut app = board();
    app.store.notes.insert(
        "%1".to_string(),
        Note { doing: "review".to_string(), next: "merge".to_string(), touched: 0 },
    );
    app.clock = 1000 + 3600;
    app.move_col(1);
    app.move_col(1);
    let lines = app.pane_card(0, 0, Col::Waiting, 40);
    assert_eq!(lines.len(), 6);
    assert_eq!(lines[0][2], p(Tone::TextBold, "api"));
    assert_eq!(lines[2], vec![p(Tone::BarBold, "▐"), p(Tone::Accent, " ▸ "), p(Tone::Text, "review")]);
    assert_eq!(lines[3], vec![p(Tone::BarBold, "▐"), p(Tone::Faint, " ↳ "), p(Tone::Dim, "merge")]);
    assert_eq!(
        lines[4],
        vec![
            p(Tone::BarBold, "▐"),
            p(Tone::Plain, " "),
            p(Tone::Warn, "⚠ "),
            p(Tone::Warn, "1h"),
            p(Tone::Faint, " · nota 1h16m"),
        ]
    );
    assert!(lines[5].is_empty());
}

#[test]
fn a_pane_card_of_an_unseen_pane_has_no_time() {
    let mut app = board();
    app.since = ckan::strmap::StrMap::new();
    let lines = app.pane_card(0, 0, Col::Waiting, 10);
    assert_eq!(lines[lines.len() - 2][2], p(Tone::Faint, "--"));
}

#[test]
fn headings_and_hints() {
    let mut app = board();
    assert_eq!(app.column_heading(Col::Todo), " 📝 TODO · 1 ");
    assert_eq!(app.column_heading(Col::InProgress), " ⏳ IN PROGRESS · 0 ");
    assert_eq!(app.column_heading(Col::Waiting), " ✅ WAITING · 1 ");
    assert!(app.key_hints().starts_with("[←→↑↓] nav"));
    app.start_new_prompt();
    assert_eq!(app.key_hints(), "[esc] cancelar");
}

#[test]
fn send_list_entries() {
    assert_eq!(target_entry("▸ a", 0, 0), p(Tone::Chosen, " ▸ a "));
    assert_eq!(target_entry("▸ a", 1, 0), p(Tone::Text, " ▸ a "));
    assert_eq!(target_entry("  b", 1, 0), p(Tone::Faint, "   b "));
    assert_eq!(target_entry("", 2, 0), p(Tone::Faint, "  "));
}

#[test]
fn selection_marks_one_card() {
    let app = board();
    assert!(app.is_sel(0, 0, Col::Todo));
    assert!(!app.is_sel(0, 0, Col::Waiting));
    assert!(!app.is_sel(1, 0, Col::Todo));
}

#[test]
fn a_two_hour_old_note_reads_nota_2h() {
    let mut app = board();
    app.store.notes.insert(
        "%1".to_string(),
        Note { doing: "x".to_string(), next: String::new(), touched: 1000 },
    );
    app.clock = 1000 + 7200;
    let lines = app.pane_card(0, 0, Col::Waiting, 40);
    let foot = &lines[lines.len() - 2];
    assert_eq!(foot[foot.len() - 1], p(Tone::Faint, " · nota 2h"));
}

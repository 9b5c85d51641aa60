//! The keyboard: what each key does in each mode.

use vstd::prelude::*;
use crate::app::{App, Effect, EffectView, Mode};
use crate::store::{lane_swap, lemma_swap_keeps_lane_order};
use crate::text::{backspaced, pop_char, push_char};

verus! {

/// A key, as the board reads it.
#[derive(Debug, Clone, Copy, PartialEq, Eq, Structural)]
pub enum Key {
    Esc,
    Enter,
    Backspace,
    Tab,
    Up,
    Down,
    Left,
    Right,
    Char(char),
    /// Any other key.
    Other,
}

/// A key press with the modifiers that matter.
#[derive(Debug, Clone, Copy, PartialEq, Eq, Structural)]
pub struct KeyPress {
    pub code: Key,
    pub ctrl: bool,
    pub shift: bool,
}

/// What a key does on the board.
#[derive(Debug, Clone, Copy, PartialEq, Eq, Structural)]
pub enum Action {
    Quit,
    Help,
    /// Left (-1) or right (+1).
    MoveCol(i32),
    /// Up (-1) or down (+1).
    MoveRow(i32),
    /// Send the card to the lane painted at this position (key `1` is 0).
    Assign(usize),
    /// Move the selected card's whole lane one position down (`true`) or up.
    MoveLane(bool),
    NewPrompt,
    Edit,
    Delete,
    CopyPrompt,
    Send,
    Rename,
    Refresh,
    Focus,
}

/// The board's binding of a character key.
pub open spec fn char_action(c: char) -> Option<Action> {
    if c == 'q' {
        Some(Action::Quit)
    } else if c == '?' {
        Some(Action::Help)
    } else if c == 'h' {
        Some(Action::MoveCol(-1i32))
    } else if c == 'l' {
        Some(Action::MoveCol(1i32))
    } else if c == 'k' {
        Some(Action::MoveRow(-1i32))
    } else if c == 'j' {
        Some(Action::MoveRow(1i32))
    } else if '1' <= c && c <= '6' {
        Some(Action::Assign((c as int - '1' as int) as usize))
    } else if c == 'J' {
        Some(Action::MoveLane(true))
    } else if c == 'K' {
        Some(Action::MoveLane(false))
    } else if c == 'n' {
        Some(Action::NewPrompt)
    } else if c == 'e' {
        Some(Action::Edit)
    } else if c == 'd' {
        Some(Action::Delete)
    } else if c == 'y' {
        Some(Action::CopyPrompt)
    } else if c == 's' {
        Some(Action::Send)
    } else if c == 'R' {
        Some(Action::Rename)
    } else if c == 'r' {
        Some(Action::Refresh)
    } else {
        None
    }
}

/// The board's key bindings: arrows and `hjkl` move, shift with an arrow
/// (or `J`/`K`) moves the whole lane, Enter jumps to the pane.
pub open spec fn board_action(k: KeyPress) -> Option<Action> {
    match k.code {
        Key::Up => Some(
            if k.shift {
                Action::MoveLane(false)
            } else {
                Action::MoveRow(-1i32)
            },
        ),
        Key::Down => Some(
            if k.shift {
                Action::MoveLane(true)
            } else {
                Action::MoveRow(1i32)
            },
        ),
        Key::Left => Some(Action::MoveCol(-1i32)),
        Key::Right => Some(Action::MoveCol(1i32)),
        Key::Enter => Some(Action::Focus),
        Key::Char(c) => char_action(c),
        _ => None,
    }
}

/// The action bound to `k` on the board, if any.
pub fn board_action_of(k: KeyPress) -> (r: Option<Action>)
    ensures
        r == board_action(k),
{
    match k.code {
        Key::Up => if k.shift {
            Some(Action::MoveLane(false))
        } else {
            Some(Action::MoveRow(-1i32))
        },
        Key::Down => if k.shift {
            Some(Action::MoveLane(true))
        } else {
            Some(Action::MoveRow(1i32))
        },
        Key::Left => Some(Action::MoveCol(-1i32)),
        Key::Right => Some(Action::MoveCol(1i32)),
        Key::Enter => Some(Action::Focus),
        Key::Char(c) => {
            if c == 'q' {
                Some(Action::Quit)
            } else if c == '?' {
                Some(Action::Help)
            } else if c == 'h' {
                Some(Action::MoveCol(-1i32))
            } else if c == 'l' {
                Some(Action::MoveCol(1i32))
            } else if c == 'k' {
                Some(Action::MoveRow(-1i32))
            } else if c == 'j' {
                Some(Action::MoveRow(1i32))
            } else if '1' <= c && c <= '6' {
                Some(Action::Assign((c as u32 - 49) as usize))
            } else if c == 'J' {
                Some(Action::MoveLane(true))
            } else if c == 'K' {
                Some(Action::MoveLane(false))
            } else if c == 'n' {
                Some(Action::NewPrompt)
            } else if c == 'e' {
                Some(Action::Edit)
            } else if c == 'd' {
                Some(Action::Delete)
            } else if c == 'y' {
                Some(Action::CopyPrompt)
            } else if c == 's' {
                Some(Action::Send)
            } else if c == 'R' {
                Some(Action::Rename)
            } else if c == 'r' {
                Some(Action::Refresh)
            } else {
                None
            }
        },
        _ => None,
    }
}

/// `a` and `b` hold the same board: the store, the panes and their timers,
/// the selection, the layout and the clock.
pub open spec fn keeps_data(a: App, b: App) -> bool {
    &&& b.store == a.store
    &&& b.panes == a.panes
    &&& b.since == a.since
    &&& b.prev_state == a.prev_state
    &&& b.col == a.col
    &&& b.row == a.row
    &&& b.section_cols == a.section_cols
    &&& b.clock == a.clock
}

/// Only the mode differs between `a` and `b`.
pub open spec fn same_but_mode(a: App, b: App) -> bool {
    &&& keeps_data(a, b)
    &&& b.status == a.status
    &&& b.should_quit == a.should_quit
    &&& b.effects == a.effects
}

/// `a` back on the board.
pub open spec fn on_board(a: App) -> App {
    App { mode: Mode::Board, ..a }
}

/// What `act` does on the board (`a` before, `b` after).
pub open spec fn action_post(a: App, b: App, act: Action) -> bool {
    match act {
        Action::Quit => {
            &&& b.should_quit
            &&& b.mode == a.mode
            &&& b.status == a.status
            &&& b.effects == a.effects
            &&& keeps_data(a, b)
        },
        Action::Help => b.mode is Help && same_but_mode(a, b),
        Action::MoveCol(d) => a.move_col_post(b, d),
        Action::MoveRow(d) => a.move_row_post(b, d),
        Action::Assign(pos) => a.assign_lane_post(b, pos),
        Action::MoveLane(down) => a.move_lane_post(b, down),
        Action::NewPrompt => a.start_new_prompt_post(b),
        Action::Edit => a.start_edit_post(b),
        Action::Delete => a.delete_selected_post(b),
        Action::CopyPrompt => a.copy_selected_post(b),
        Action::Send => a.start_send_post(b),
        Action::Rename => a.start_rename_post(b),
        Action::Refresh => {
            &&& b.status@ == "refrescado"@
            &&& b.effects.deep_view() == a.effects.deep_view().push(EffectView::Refresh)
            &&& b.mode == a.mode
            &&& b.should_quit == a.should_quit
            &&& keeps_data(a, b)
        },
        Action::Focus => a.focus_selected_post(b),
    }
}

/// What key `k` does on the board (`a` before, `b` after).
pub open spec fn board_post(a: App, b: App, k: KeyPress) -> bool {
    match board_action(k) {
        Some(act) => action_post(a, b, act),
        None => b == a,
    }
}

/// A key on the board: runs the action bound to it.
pub fn on_board_key(app: &mut App, k: KeyPress)
    requires
        old(app).well_formed(),
        old(app).mode is Board,
    ensures
        final(app).well_formed(),
        board_post(*old(app), *final(app), k),
{
    let _ = app.store.prompts.len();
    let _ = app.panes.len();
    let _ = app.store.lane_order.len();
    proof {
        app.lemma_selected();
        app.lemma_grid_subcols(app.store.lane_order@.len());
    }
    let act = match board_action_of(k) {
        Some(act) => act,
        None => {
            return;
        },
    };
    match act {
        Action::Quit => {
            app.should_quit = true;
        },
        Action::Help => {
            app.mode = Mode::Help;
        },
        Action::MoveCol(d) => app.move_col(d),
        Action::MoveRow(d) => app.move_row(d),
        Action::Assign(pos) => app.assign_lane(pos),
        Action::MoveLane(down) => {
            let ghost before = *app;
            app.move_lane(down);
            proof {
                if let Some(c) = before.selected_spec() {
                    if lane_swap(before.store.lane_order@, c.0, down) is Some {
                        lemma_swap_keeps_lane_order(before.store.lane_order@, c.0, down);
                    }
                }
            }
        },
        Action::NewPrompt => app.start_new_prompt(),
        Action::Edit => app.start_edit(),
        Action::Delete => app.delete_selected(),
        Action::CopyPrompt => app.copy_selected(),
        Action::Send => app.start_send(),
        Action::Rename => app.start_rename(),
        Action::Refresh => {
            let ghost pre = app.effects.deep_view();
            app.effects.push(Effect::Refresh);
            assert(app.effects.deep_view() =~= pre.push(EffectView::Refresh));
            app.status = String::from_str("refrescado");
        },
        Action::Focus => app.focus_selected(),
    }
}

/// The prompt editor's text after key `code`: Enter breaks the line,
/// Backspace deletes the last character, a character is typed at the end.
pub open spec fn prompt_typed(text: Seq<char>, code: Key) -> Seq<char> {
    match code {
        Key::Enter => text.push('\n'),
        Key::Backspace => backspaced(text),
        Key::Char(c) => text.push(c),
        _ => text,
    }
}

/// A one-line field's text after key `code`: Backspace deletes the last
/// character, a character is typed at the end.
pub open spec fn line_typed(text: Seq<char>, code: Key) -> Seq<char> {
    match code {
        Key::Backspace => backspaced(text),
        Key::Char(c) => text.push(c),
        _ => text,
    }
}

/// The target chosen after key `code` among `n`: Up and Down move one
/// step, stopping at the ends.
pub open spec fn next_sel(sel: usize, n: nat, code: Key) -> usize {
    let last: int = if n > 0 {
        n - 1
    } else {
        0
    };
    match code {
        Key::Up => if sel > 0 {
            (sel - 1) as usize
        } else {
            0
        },
        Key::Down => if sel < last {
            (sel + 1) as usize
        } else {
            last as usize
        },
        _ => sel,
    }
}

/// `b` is `a` with the prompt editor open on prompt `idx` (a new one when
/// `None`) holding `text`, the cursor at its end.
pub open spec fn prompt_edited(a: App, b: App, idx: Option<usize>, text: Seq<char>) -> bool {
    &&& b.mode matches Mode::PromptEdit { idx: i, buf, cur }
    &&& i == idx
    &&& buf@ == text
    &&& cur == vstd::utf8::encode_utf8(text).len() as usize
    &&& same_but_mode(a, b)
}

/// `b` is `a` with the note editor open on pane `pane`, its fields holding
/// `doing` and `next`, on field `field`.
pub open spec fn note_edited(
    a: App,
    b: App,
    pane: Seq<char>,
    doing: Seq<char>,
    next: Seq<char>,
    field: usize,
) -> bool {
    &&& b.mode matches Mode::NoteEdit { pane: p, doing: d, next: n, field: f }
    &&& p@ == pane
    &&& d@ == doing
    &&& n@ == next
    &&& f == field
    &&& same_but_mode(a, b)
}

/// `b` is `a` renaming lane `lane`, the field holding `text`.
pub open spec fn renaming(a: App, b: App, lane: usize, text: Seq<char>) -> bool {
    &&& b.mode matches Mode::LaneRename { lane: l, buf }
    &&& l == lane
    &&& buf@ == text
    &&& same_but_mode(a, b)
}

/// `b` is `a` asking where to send prompt `prompt_idx`, among `targets`,
/// with target `sel` chosen.
pub open spec fn choosing(
    a: App,
    b: App,
    prompt_idx: usize,
    targets: Vec<(String, String)>,
    sel: usize,
) -> bool {
    &&& b.mode matches Mode::SendConfirm { prompt_idx: p, targets: t, sel: s }
    &&& p == prompt_idx
    &&& t == targets
    &&& s == sel
    &&& same_but_mode(a, b)
}

/// What key `k` does in each mode (`a` before, `b` after).
///
/// In the editors Esc leaves without saving; Ctrl+S (and Enter, but in the
/// prompt editor, where Enter breaks the line) saves. In the note editor
/// Tab, Up and Down switch fields. When sending, Up and Down choose the
/// target, Enter types the prompt into it and Esc cancels. In the help,
/// Esc, `?` or `q` close it.
pub open spec fn key_post(a: App, b: App, k: KeyPress) -> bool {
    let board = on_board(a);
    let save = k.code == Key::Char('s') && k.ctrl;
    match a.mode {
        Mode::Board => board_post(a, b, k),
        Mode::PromptEdit { idx, buf, cur } => if k.code == Key::Esc {
            b == board
        } else if save {
            board.commit_prompt_post(b, idx, buf@)
        } else {
            prompt_edited(a, b, idx, prompt_typed(buf@, k.code))
        },
        Mode::NoteEdit { pane, doing, next, field } => if k.code == Key::Esc {
            b == board
        } else if save || k.code == Key::Enter {
            board.commit_note_post(b, pane@, doing@, next@)
        } else if k.code == Key::Tab || k.code == Key::Down || k.code == Key::Up {
            note_edited(a, b, pane@, doing@, next@, (1 - field) as usize)
        } else if field == 0 {
            note_edited(a, b, pane@, line_typed(doing@, k.code), next@, field)
        } else {
            note_edited(a, b, pane@, doing@, line_typed(next@, k.code), field)
        },
        Mode::LaneRename { lane, buf } => if k.code == Key::Esc {
            b == board
        } else if k.code == Key::Enter {
            board.commit_rename_post(b, lane, buf@)
        } else {
            renaming(a, b, lane, line_typed(buf@, k.code))
        },
        Mode::SendConfirm { prompt_idx, targets, sel } => if k.code == Key::Esc {
            &&& b.mode is Board
            &&& b.status@ == "envio cancelado"@
            &&& b.should_quit == a.should_quit
            &&& b.effects == a.effects
            &&& keeps_data(a, b)
        } else if k.code == Key::Enter {
            if sel < targets@.len() {
                board.do_send_post(b, prompt_idx, targets@[sel as int].0@)
            } else {
                b == board
            }
        } else {
            choosing(a, b, prompt_idx, targets, next_sel(sel, targets@.len(), k.code))
        },
        Mode::Help => if k.code == Key::Esc || k.code == Key::Char('?') || k.code == Key::Char('q') {
            b == board
        } else {
            b == a
        },
    }
}

/// Handles one key press.
pub fn on_key(app: &mut App, k: KeyPress)
    requires
        old(app).well_formed(),
    ensures
        final(app).well_formed(),
        key_post(*old(app), *final(app), k),
{
    let save = k.code == Key::Char('s') && k.ctrl;
    let mut mode = Mode::Board;
    std::mem::swap(&mut mode, &mut app.mode);
    match mode {
        Mode::Board => on_board_key(app, k),
        Mode::PromptEdit { idx, mut buf, cur } => {
            if k.code == Key::Esc {
            } else if save {
                app.commit_prompt(idx, buf);
            } else {
                match k.code {
                    Key::Enter => push_char(&mut buf, '\n'),
                    Key::Backspace => {
                        let _ = pop_char(&mut buf);
                    },
                    Key::Char(c) => push_char(&mut buf, c),
                    _ => {},
                }
                let cur = buf.as_str().len();
                app.mode = Mode::PromptEdit { idx, buf, cur };
            }
        },
        Mode::NoteEdit { pane, mut doing, mut next, field } => {
            if k.code == Key::Esc {
            } else if save || k.code == Key::Enter {
                app.commit_note(pane, doing, next);
            } else if k.code == Key::Tab || k.code == Key::Down || k.code == Key::Up {
                app.mode = Mode::NoteEdit { pane, doing, next, field: 1 - field };
            } else {
                if field == 0 {
                    type_line(&mut doing, k.code);
                } else {
                    type_line(&mut next, k.code);
                }
                app.mode = Mode::NoteEdit { pane, doing, next, field };
            }
        },
        Mode::LaneRename { lane, mut buf } => {
            if k.code == Key::Esc {
            } else if k.code == Key::Enter {
                assert(app.store.lane_names.deep_view().len() == app.store.lane_names@.len());
                app.commit_rename(lane, buf);
                assert(app.store.lane_names.deep_view().len() == app.store.lane_names@.len());
            } else {
                type_line(&mut buf, k.code);
                app.mode = Mode::LaneRename { lane, buf };
            }
        },
        Mode::SendConfirm { prompt_idx, targets, sel } => {
            if k.code == Key::Esc {
                app.status = String::from_str("envio cancelado");
            } else if k.code == Key::Enter {
                if sel < targets.len() {
                    let id = targets[sel].0.clone();
                    app.do_send(prompt_idx, id);
                }
            } else {
                let n = targets.len();
                let last = if n > 0 {
                    n - 1
                } else {
                    0
                };
                let sel = match k.code {
                    Key::Up => if sel > 0 {
                        sel - 1
                    } else {
                        0
                    },
                    Key::Down => if sel < last {
                        sel + 1
                    } else {
                        last
                    },
                    _ => sel,
                };
                app.mode = Mode::SendConfirm { prompt_idx, targets, sel };
            }
        },
        Mode::Help => {
            if !(k.code == Key::Esc || k.code == Key::Char('?') || k.code == Key::Char('q')) {
                app.mode = Mode::Help;
            }
        },
    }
}

/// The work that `b` asks of the runner beyond what `a` asked.
pub open spec fn new_effects(a: App, b: App) -> Seq<EffectView> {
    b.effects.deep_view().subrange(a.effects.deep_view().len() as int, b.effects.deep_view().len() as int)
}

/// A key never drops work already asked of the runner, and whenever it
/// changes the stored board (lanes, prompts, notes) it asks for the store to
/// be saved.
pub proof fn lemma_keys_save_changes(a: App, b: App, k: KeyPress)
    requires
        key_post(a, b, k),
    ensures
        a.effects.deep_view().is_prefix_of(b.effects.deep_view()),
        b.store != a.store ==> new_effects(a, b).contains(EffectView::Save),
{
    let e = a.effects.deep_view();
    let f = b.effects.deep_view();
    if f == e.push(EffectView::Save) {
        assert(new_effects(a, b) =~= seq![EffectView::Save]);
        assert(new_effects(a, b)[0] == EffectView::Save);
    } else if f == e.push(EffectView::Refresh) {
        assert(new_effects(a, b) =~= seq![EffectView::Refresh]);
    } else if exists|x: EffectView| f == e.push(x) {
    } else if exists|x: EffectView, y: EffectView| f == e.push(x).push(EffectView::Save).push(y) {
        let (x, y) = choose|x: EffectView, y: EffectView| f == e.push(x).push(EffectView::Save).push(y);
        assert(new_effects(a, b) =~= seq![x, EffectView::Save, y]);
        assert(new_effects(a, b)[1] == EffectView::Save);
    } else {
        assert(f == e);
    }
}

/// In the prompt editor, typing a character and then Backspace gives back
/// the text and the cursor, and nothing else changes.
pub proof fn lemma_type_then_backspace(a: App, b: App, c: App, ch: char, shift: bool)
    requires
        a.well_formed(),
        a.mode is PromptEdit,
        key_post(a, b, KeyPress { code: Key::Char(ch), ctrl: false, shift }),
        key_post(b, c, KeyPress { code: Key::Backspace, ctrl: false, shift: false }),
    ensures
        same_but_mode(a, c),
        c.mode matches Mode::PromptEdit { idx: i2, buf: b2, cur: c2 } && (a.mode matches Mode::PromptEdit {
            idx,
            buf,
            cur,
        } && i2 == idx && b2@ == buf@ && c2 == cur),
{
    if let Mode::PromptEdit { idx, buf, cur } = a.mode {
        assert(buf@.push(ch).drop_last() =~= buf@);
    }
}

/// Esc backs out of whatever is open without touching the board: from an
/// editor or the help it returns to the board with the store, the status
/// and the work asked of the runner unchanged; from a send it cancels it,
/// saying so, the store and the work asked unchanged.
pub proof fn lemma_escape_cancels(a: App, b: App, shift: bool, ctrl: bool)
    requires
        key_post(a, b, KeyPress { code: Key::Esc, ctrl, shift }),
        !(a.mode is Board),
    ensures
        b.mode is Board,
        b.store == a.store,
        b.effects == a.effects,
        b.panes == a.panes,
        b.col == a.col,
        b.row == a.row,
        b.should_quit == a.should_quit,
        a.mode is SendConfirm ==> b.status@ == "envio cancelado"@,
        !(a.mode is SendConfirm) ==> b.status == a.status,
{
}

/// Types key `code` into a one-line field.
fn type_line(text: &mut String, code: Key)
    ensures
        final(text)@ == line_typed(old(text)@, code),
{
    match code {
        Key::Backspace => {
            let _ = pop_char(text);
        },
        Key::Char(c) => push_char(text, c),
        _ => {},
    }
}

} // verus!

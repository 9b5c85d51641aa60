//! What the board's cards and headings say, piece by piece. The drawing
//! gives each piece the style of its tone and the lane's colour.

use vstd::prelude::*;
use crate::app::{App, Col, Mode, elapsed_of};
use crate::board::{wrap, wrapped};
use crate::store::{duration_text, fmt_dur, Note, NoteView};
use crate::text::{decimal, push_decimal};
use crate::tmux::{Pane, PaneView, State};

verus! {

/// How a piece of text is shown.
#[derive(Debug, Clone, Copy, PartialEq, Eq, Structural)]
pub enum Tone {
    /// No style of its own.
    Plain,
    /// Bold.
    Bold,
    /// Main text.
    Text,
    /// Main text, bold.
    TextBold,
    /// Secondary text that must stay readable.
    Dim,
    /// Accessory text.
    Faint,
    /// The mark of what a pane is doing.
    Accent,
    /// A warning.
    Warn,
    /// A card's edge, in the lane's colour.
    Bar,
    /// The selected card's edge, in the lane's colour, bold.
    BarBold,
    /// The chosen entry of a list.
    Chosen,
}

/// A piece of a line of text.
#[derive(Debug, PartialEq, Eq)]
pub struct Piece {
    pub tone: Tone,
    pub text: String,
}

impl DeepView for Piece {
    type V = (Tone, Seq<char>);

    open spec fn deep_view(&self) -> (Tone, Seq<char>) {
        (self.tone, self.text@)
    }
}

/// A line as plain values: its pieces, in order.
pub type LineView = Seq<(Tone, Seq<char>)>;

/// A card's edge, marked when the card is selected.
pub open spec fn bar_piece(sel: bool) -> (Tone, Seq<char>) {
    if sel {
        (Tone::BarBold, "▐"@)
    } else {
        (Tone::Bar, "▏"@)
    }
}

/// At most the first `n` of `rows`.
pub open spec fn first_rows(rows: Seq<Seq<char>>, n: nat) -> Seq<Seq<char>> {
    if rows.len() <= n {
        rows
    } else {
        rows.take(n as int)
    }
}

/// `w - 3`, or 0: the width inside a card's edge and margins.
pub open spec fn inner_width(w: u16) -> nat {
    if w >= 3 {
        (w - 3) as nat
    } else {
        0
    }
}

/// A card line holding one row of text in `tone`.
pub open spec fn row_line(sel: bool, tone: Tone, row: Seq<char>) -> LineView {
    seq![bar_piece(sel), (Tone::Plain, " "@), (tone, row)]
}

/// Card lines for `rows`, each in `tone`.
pub open spec fn row_lines(sel: bool, tone: Tone, rows: Seq<Seq<char>>) -> Seq<LineView> {
    Seq::new(rows.len(), |k: int| row_line(sel, tone, rows[k]))
}

/// A card line holding row `k` of a marked text: the first row carries
/// `mark`, the others a blank of the same width.
pub open spec fn marked_line(sel: bool, mark: Seq<char>, mark_tone: Tone, tone: Tone, k: int, row: Seq<char>) -> LineView {
    seq![bar_piece(sel), (mark_tone, if k == 0 { mark } else { "   "@ }), (tone, row)]
}

/// Card lines for the rows of a marked text.
pub open spec fn marked_lines(sel: bool, mark: Seq<char>, mark_tone: Tone, tone: Tone, rows: Seq<Seq<char>>) -> Seq<LineView> {
    Seq::new(rows.len(), |k: int| marked_line(sel, mark, mark_tone, tone, k, rows[k]))
}

/// The lines of a prompt's card: its text wrapped to the column's inner
/// width, four rows at most and " …" when there are more, then a blank
/// line. The text is bold when selected, dim otherwise.
pub open spec fn prompt_card_spec(text: Seq<char>, sel: bool, w: u16) -> Seq<LineView> {
    let rows = wrapped(text, inner_width(w));
    let tone = if sel {
        Tone::Bold
    } else {
        Tone::Dim
    };
    let more = if rows.len() > 4 {
        seq![seq![bar_piece(sel), (Tone::Faint, " …"@)]]
    } else {
        Seq::<LineView>::empty()
    };
    row_lines(sel, tone, first_rows(rows, 4)) + more + seq![Seq::<(Tone, Seq<char>)>::empty()]
}

fn bar(sel: bool) -> (r: Piece)
    ensures
        r.deep_view() == bar_piece(sel),
{
    if sel {
        Piece { tone: Tone::BarBold, text: String::from_str("▐") }
    } else {
        Piece { tone: Tone::Bar, text: String::from_str("▏") }
    }
}

fn piece(tone: Tone, text: &str) -> (r: Piece)
    ensures
        r.deep_view() == (tone, text@),
{
    Piece { tone, text: text.to_owned() }
}

/// Appends the card lines of the first `n` of `rows`, each in `tone`.
fn push_rows(out: &mut Vec<Vec<Piece>>, sel: bool, tone: Tone, rows: &Vec<String>, n: usize)
    ensures
        final(out).deep_view() == old(out).deep_view() + row_lines(
            sel,
            tone,
            first_rows(rows.deep_view(), n as nat),
        ),
{
    let ghost pre = out.deep_view();
    let ghost want = first_rows(rows.deep_view(), n as nat);
    let m = if rows.len() < n {
        rows.len()
    } else {
        n
    };
    assert(want.len() == m);
    let mut k: usize = 0;
    while k < m
        invariant
            k <= m,
            m == want.len(),
            m <= rows@.len(),
            want == first_rows(rows.deep_view(), n as nat),
            out.deep_view() == pre + row_lines(sel, tone, want).take(k as int),
        decreases m - k,
    {
        assert(rows.deep_view()[k as int] == rows@[k as int]@);
        assert(want[k as int] == rows@[k as int]@);
        let line = vec![bar(sel), piece(Tone::Plain, " "), piece(tone, rows[k].as_str())];
        let ghost before = out.deep_view();
        out.push(line);
        assert(line.deep_view() =~= row_line(sel, tone, want[k as int]));
        assert(row_lines(sel, tone, want).take(k + 1) =~= row_lines(sel, tone, want).take(k as int).push(
            row_line(sel, tone, want[k as int]),
        ));
        assert(out.deep_view() =~= before.push(line.deep_view()));
        k = k + 1;
    }
    assert(row_lines(sel, tone, want).take(m as int) =~= row_lines(sel, tone, want));
}

/// The lines of prompt `text`'s card in a column `w` wide.
pub fn prompt_card_lines(text: &str, sel: bool, w: u16) -> (r: Vec<Vec<Piece>>)
    ensures
        r.deep_view() == prompt_card_spec(text@, sel, w),
{
    let inner: usize = if w >= 3 {
        (w - 3) as usize
    } else {
        0
    };
    let rows = wrap(text, inner);
    let tone = if sel {
        Tone::Bold
    } else {
        Tone::Dim
    };
    let mut out: Vec<Vec<Piece>> = Vec::new();
    assert(out.deep_view() =~= Seq::<LineView>::empty());
    push_rows(&mut out, sel, tone, &rows, 4);
    let ghost mid = out.deep_view();
    if rows.len() > 4 {
        let line = vec![bar(sel), piece(Tone::Faint, " …")];
        out.push(line);
        assert(line.deep_view() =~= seq![bar_piece(sel), (Tone::Faint, " …"@)]);
        assert(out.deep_view() =~= mid.push(line.deep_view()));
    }
    let ghost mid2 = out.deep_view();
    let blank: Vec<Piece> = Vec::new();
    out.push(blank);
    assert(blank.deep_view() =~= Seq::<(Tone, Seq<char>)>::empty());
    assert(out.deep_view() =~= mid2.push(blank.deep_view()));
    out
}

/// Appends the card lines of the first `n` of `rows`, the first marked.
fn push_marked(
    out: &mut Vec<Vec<Piece>>,
    sel: bool,
    mark: &str,
    mark_tone: Tone,
    tone: Tone,
    rows: &Vec<String>,
    n: usize,
)
    ensures
        final(out).deep_view() == old(out).deep_view() + marked_lines(
            sel,
            mark@,
            mark_tone,
            tone,
            first_rows(rows.deep_view(), n as nat),
        ),
{
    let ghost pre = out.deep_view();
    let ghost want = first_rows(rows.deep_view(), n as nat);
    let ghost all = marked_lines(sel, mark@, mark_tone, tone, want);
    let m = if rows.len() < n {
        rows.len()
    } else {
        n
    };
    assert(want.len() == m);
    let mut k: usize = 0;
    while k < m
        invariant
            k <= m,
            m == want.len(),
            m <= rows@.len(),
            want == first_rows(rows.deep_view(), n as nat),
            all == marked_lines(sel, mark@, mark_tone, tone, want),
            out.deep_view() == pre + all.take(k as int),
        decreases m - k,
    {
        assert(rows.deep_view()[k as int] == rows@[k as int]@);
        assert(want[k as int] == rows@[k as int]@);
        let m_piece = if k == 0 {
            piece(mark_tone, mark)
        } else {
            piece(mark_tone, "   ")
        };
        let line = vec![bar(sel), m_piece, piece(tone, rows[k].as_str())];
        let ghost before = out.deep_view();
        out.push(line);
        assert(line.deep_view() =~= marked_line(sel, mark@, mark_tone, tone, k as int, want[k as int]));
        assert(all.take(k + 1) =~= all.take(k as int).push(all[k as int]));
        assert(out.deep_view() =~= before.push(line.deep_view()));
        k = k + 1;
    }
    assert(all.take(m as int) =~= all);
}

/// Seconds after which a note is no longer to be trusted, and a pane has
/// waited long.
pub const STALE_SECS: u64 = 3600;

/// Either field of the note has text.
pub open spec fn note_has_text(n: NoteView) -> bool {
    n.doing.len() > 0 || n.next.len() > 0
}

/// The note kept for pane `id`, if any.
pub open spec fn note_of(notes: Map<Seq<char>, NoteView>, id: Seq<char>) -> Option<NoteView> {
    if notes.contains_key(id) {
        Some(notes[id])
    } else {
        None
    }
}

/// `inner - 2`, or 0.
pub open spec fn note_width(inner: nat) -> nat {
    if inner >= 2 {
        (inner - 2) as nat
    } else {
        0
    }
}

/// A card's note lines: what the pane is doing (marked " ▸ ") and what is
/// expected next (marked " ↳ "), two rows each at most; " · sin nota" when
/// there is no note with text.
pub open spec fn note_lines(sel: bool, note: Option<NoteView>, inner: nat) -> Seq<LineView> {
    match note {
        Some(n) => if note_has_text(n) {
            let w = note_width(inner);
            (if n.doing.len() > 0 {
                marked_lines(sel, " ▸ "@, Tone::Accent, Tone::Text, first_rows(wrapped(n.doing, w), 2))
            } else {
                Seq::<LineView>::empty()
            }) + (if n.next.len() > 0 {
                marked_lines(sel, " ↳ "@, Tone::Faint, Tone::Dim, first_rows(wrapped(n.next, w), 2))
            } else {
                Seq::<LineView>::empty()
            })
        } else {
            seq![seq![bar_piece(sel), (Tone::Faint, " · sin nota"@)]]
        },
        None => seq![seq![bar_piece(sel), (Tone::Faint, " · sin nota"@)]],
    }
}

/// A pane has waited for its user for long.
pub open spec fn long_wait(state: State, elapsed: Option<u64>) -> bool {
    state == State::Waiting && match elapsed {
        Some(e) => e >= STALE_SECS,
        None => false,
    }
}

/// Seconds from `touched` to `clock`, 0 if the clock is behind.
pub open spec fn age_of(clock: u64, touched: u64) -> u64 {
    if clock >= touched {
        (clock - touched) as u64
    } else {
        0
    }
}

/// A card's foot: the time in its state ("--" when unknown), flagged with
/// "⚠" after a long wait, and the age of a stale note.
pub open spec fn foot_line(
    sel: bool,
    state: State,
    elapsed: Option<u64>,
    note: Option<NoteView>,
    clock: u64,
) -> LineView {
    let warn = long_wait(state, elapsed);
    let time = match elapsed {
        Some(e) => duration_text(e as nat),
        None => "--"@,
    };
    let stale = match note {
        Some(n) => if age_of(clock, n.touched) >= STALE_SECS && note_has_text(n) {
            seq![(Tone::Faint, " · nota "@ + duration_text(age_of(clock, n.touched) as nat))]
        } else {
            Seq::<(Tone, Seq<char>)>::empty()
        },
        None => Seq::<(Tone, Seq<char>)>::empty(),
    };
    seq![bar_piece(sel), (Tone::Plain, " "@)] + (if warn {
        seq![(Tone::Warn, "⚠ "@)]
    } else {
        Seq::<(Tone, Seq<char>)>::empty()
    }) + seq![(if warn { Tone::Warn } else { Tone::Faint }, time)] + stale
}

/// The lines of pane `p`'s card in a column `w` wide: its window and
/// location, two rows of its title, its note, its foot, a blank line.
pub open spec fn pane_card_spec(
    p: PaneView,
    note: Option<NoteView>,
    elapsed: Option<u64>,
    clock: u64,
    sel: bool,
    w: u16,
) -> Seq<LineView> {
    let inner = inner_width(w);
    seq![head_line(sel, p)] + row_lines(sel, Tone::Dim, first_rows(wrapped(p.title, inner), 2)) + note_lines(
        sel,
        note,
        inner,
    ) + seq![foot_line(sel, p.state, elapsed, note, clock), Seq::<(Tone, Seq<char>)>::empty()]
}

/// A pane card warns only about a pane that waits for its user, and does
/// so once it has waited an hour: no piece of the card has the warning tone
/// unless the pane is waiting and its time in that state is known and at
/// least `STALE_SECS`; then the foot starts with "⚠ " and shows the time in
/// the warning tone.
pub proof fn lemma_card_warns_only_long_waits(
    p: PaneView,
    note: Option<NoteView>,
    elapsed: Option<u64>,
    clock: u64,
    sel: bool,
    w: u16,
)
    ensures
        ({
            let lines = pane_card_spec(p, note, elapsed, clock, sel, w);
            let waited = p.state == State::Waiting && match elapsed {
                Some(e) => e >= 3600,
                None => false,
            };
            &&& forall|i: int, j: int|
                0 <= i < lines.len() && 0 <= j < lines[i].len() && (#[trigger] lines[i][j]).0 == Tone::Warn ==> waited
            &&& waited ==> lines[lines.len() - 2][2] == (Tone::Warn, "⚠ "@) && lines[lines.len() - 2][3].0
                == Tone::Warn
        }),
{
    let lines = pane_card_spec(p, note, elapsed, clock, sel, w);
    let inner = inner_width(w);
    let head = seq![head_line(sel, p)];
    let title = row_lines(sel, Tone::Dim, first_rows(wrapped(p.title, inner), 2));
    let notes = note_lines(sel, note, inner);
    let foot = foot_line(sel, p.state, elapsed, note, clock);
    let tail = seq![foot, Seq::<(Tone, Seq<char>)>::empty()];
    assert(lines == head + title + notes + tail);
    assert forall|i: int, j: int|
        0 <= i < lines.len() && 0 <= j < lines[i].len() && (#[trigger] lines[i][j]).0 == Tone::Warn implies p.state
        == State::Waiting && match elapsed {
        Some(e) => e >= 3600,
        None => false,
    } by {
        if i == 0 {
            assert(lines[i] == head_line(sel, p));
        } else if i < 1 + title.len() {
            assert(lines[i] == title[i - 1]);
        } else if i < 1 + title.len() + notes.len() {
            assert(lines[i] == notes[i - 1 - title.len()]);
            if let Some(n) = note {
                if note_has_text(n) {
                    let wd = note_width(inner);
                    let dp = if n.doing.len() > 0 {
                        marked_lines(sel, " ▸ "@, Tone::Accent, Tone::Text, first_rows(wrapped(n.doing, wd), 2))
                    } else {
                        Seq::<LineView>::empty()
                    };
                    let k = i - 1 - title.len();
                    if k < dp.len() {
                        assert(notes[k] == dp[k]);
                    } else {
                        assert(notes[k] == (if n.next.len() > 0 {
                            marked_lines(sel, " ↳ "@, Tone::Faint, Tone::Dim, first_rows(wrapped(n.next, wd), 2))
                        } else {
                            Seq::<LineView>::empty()
                        })[k - dp.len()]);
                    }
                }
            }
        } else {
            assert(lines[i] == tail[i - 1 - title.len() - notes.len()]);
            if i == lines.len() - 2 {
                assert(lines[i] == foot);
                if !long_wait(p.state, elapsed) {
                    let stale = match note {
                        Some(n) => if age_of(clock, n.touched) >= STALE_SECS && note_has_text(n) {
                            seq![(Tone::Faint, " · nota "@ + duration_text(age_of(clock, n.touched) as nat))]
                        } else {
                            Seq::<(Tone, Seq<char>)>::empty()
                        },
                        None => Seq::<(Tone, Seq<char>)>::empty(),
                    };
                    if j >= 3 {
                        assert(foot[j] == stale[j - 3]);
                    }
                }
            }
        }
    }
    assert(lines[lines.len() - 2] == foot);
}

impl App {
    /// Card `idx` of `lane` in column `col` is the selected one.
    pub open spec fn is_sel_spec(&self, lane: usize, idx: usize, col: Col) -> bool {
        self.col == col && self.selected_spec() == Some((lane, idx))
    }

    /// Whether card `idx` of `lane` in column `col` is the selected one.
    pub fn is_sel(&self, lane: usize, idx: usize, col: Col) -> (r: bool)
        ensures
            r == self.is_sel_spec(lane, idx, col),
    {
        if self.col != col {
            return false;
        }
        match self.selected() {
            Some((l, i)) => l == lane && i == idx,
            None => false,
        }
    }

    /// The lines of prompt `i`'s card, of `lane`, in a column `w` wide.
    pub fn prompt_card(&self, lane: usize, i: usize, w: u16) -> (r: Vec<Vec<Piece>>)
        requires
            i < self.store.prompts@.len(),
        ensures
            r.deep_view() == prompt_card_spec(
                self.store.prompts@[i as int].text@,
                self.is_sel_spec(lane, i, Col::Todo),
                w,
            ),
    {
        let sel = self.is_sel(lane, i, Col::Todo);
        prompt_card_lines(self.store.prompts[i].text.as_str(), sel, w)
    }

    /// The lines of pane `i`'s card, of `lane`, in column `col`, `w` wide.
    pub fn pane_card(&self, lane: usize, i: usize, col: Col, w: u16) -> (r: Vec<Vec<Piece>>)
        requires
            i < self.panes@.len(),
        ensures
            r.deep_view() == pane_card_spec(
                self.panes@[i as int]@,
                note_of(self.store.notes@, self.panes@[i as int].id@),
                elapsed_of(self.since@, self.clock, self.panes@[i as int].id@),
                self.clock,
                self.is_sel_spec(lane, i, col),
                w,
            ),
    {
        let sel = self.is_sel(lane, i, col);
        let p = &self.panes[i];
        let inner: usize = if w >= 3 {
            (w - 3) as usize
        } else {
            0
        };
        assert(inner as nat == inner_width(w));
        let n = self.store.notes.get(&p.id);
        let ghost note = note_of(self.store.notes@, p.id@);
        assert(note == opt_view(n));
        let el = self.elapsed(p.id.as_str());
        let mut out: Vec<Vec<Piece>> = Vec::new();
        let head = card_head(sel, p);
        let ghost hv = head.deep_view();
        out.push(head);
        assert(out.deep_view() =~= seq![hv]);
        let title = wrap(p.title.as_str(), inner);
        push_rows(&mut out, sel, Tone::Dim, &title, 2);
        push_note(&mut out, sel, n, inner);
        let ghost after_note = out.deep_view();
        let foot = card_foot(sel, p.state, el, n, self.clock);
        let ghost fv = foot.deep_view();
        out.push(foot);
        let blank: Vec<Piece> = Vec::new();
        out.push(blank);
        assert(blank.deep_view() =~= Seq::<(Tone, Seq<char>)>::empty());
        assert(out.deep_view() =~= after_note.push(fv).push(Seq::<(Tone, Seq<char>)>::empty()));
        out
    }
}

/// The plain value of an optional note.
pub open spec fn opt_view(n: Option<&Note>) -> Option<NoteView> {
    match n {
        Some(x) => Some(x@),
        None => None,
    }
}

/// The first line of pane `p`'s card.
pub open spec fn head_line(sel: bool, p: PaneView) -> LineView {
    seq![
        bar_piece(sel),
        (Tone::Plain, " "@),
        (if sel { Tone::TextBold } else { Tone::Text }, p.window),
        (Tone::Faint, "  "@ + p.loc),
    ]
}

fn card_head(sel: bool, p: &Pane) -> (r: Vec<Piece>)
    ensures
        r.deep_view() == head_line(sel, p@),
{
    let mut loc = String::from_str("  ");
    loc.append(p.loc.as_str());
    let head = vec![
        bar(sel),
        piece(Tone::Plain, " "),
        piece(if sel { Tone::TextBold } else { Tone::Text }, p.window.as_str()),
        Piece { tone: Tone::Faint, text: loc },
    ];
    assert(head.deep_view() =~= head_line(sel, p@));
    head
}

/// Appends a card's note lines.
fn push_note(out: &mut Vec<Vec<Piece>>, sel: bool, n: Option<&Note>, inner: usize)
    ensures
        final(out).deep_view() == old(out).deep_view() + note_lines(sel, opt_view(n), inner as nat),
{
    let ghost pre = out.deep_view();
    let ghost note = opt_view(n);
    let has_text = match n {
        Some(n) => !n.doing.as_str().is_empty() || !n.next.as_str().is_empty(),
        None => false,
    };
    if has_text {
        let n = n.unwrap();
        let ghost nv = n@;
        let nw: usize = if inner >= 2 {
            inner - 2
        } else {
            0
        };
        assert(nw as nat == note_width(inner as nat));
        let ghost doing_part = if nv.doing.len() > 0 {
            marked_lines(sel, " ▸ "@, Tone::Accent, Tone::Text, first_rows(wrapped(nv.doing, nw as nat), 2))
        } else {
            Seq::<LineView>::empty()
        };
        let ghost next_part = if nv.next.len() > 0 {
            marked_lines(sel, " ↳ "@, Tone::Faint, Tone::Dim, first_rows(wrapped(nv.next, nw as nat), 2))
        } else {
            Seq::<LineView>::empty()
        };
        if !n.doing.as_str().is_empty() {
            let rows = wrap(n.doing.as_str(), nw);
            push_marked(out, sel, " ▸ ", Tone::Accent, Tone::Text, &rows, 2);
        } else {
            assert(pre + doing_part =~= pre);
        }
        let ghost after_doing = out.deep_view();
        assert(after_doing == pre + doing_part);
        if !n.next.as_str().is_empty() {
            let rows = wrap(n.next.as_str(), nw);
            push_marked(out, sel, " ↳ ", Tone::Faint, Tone::Dim, &rows, 2);
        } else {
            assert(after_doing + next_part =~= after_doing);
        }
        assert(out.deep_view() == after_doing + next_part);
        assert(note_lines(sel, note, inner as nat) == doing_part + next_part);
        assert(out.deep_view() =~= pre + note_lines(sel, note, inner as nat));
    } else {
        let line = vec![bar(sel), piece(Tone::Faint, " · sin nota")];
        out.push(line);
        assert(line.deep_view() =~= seq![bar_piece(sel), (Tone::Faint, " · sin nota"@)]);
        assert(out.deep_view() =~= pre + note_lines(sel, note, inner as nat));
    }
}

fn card_foot(sel: bool, state: State, el: Option<u64>, n: Option<&Note>, clock: u64) -> (r: Vec<Piece>)
    ensures
        r.deep_view() == foot_line(sel, state, el, opt_view(n), clock),
{
    let warn = state == State::Waiting && match el {
        Some(e) => e >= STALE_SECS,
        None => false,
    };
    let mut foot = vec![bar(sel), piece(Tone::Plain, " ")];
    if warn {
        foot.push(piece(Tone::Warn, "⚠ "));
    }
    let time = match el {
        Some(e) => fmt_dur(e),
        None => String::from_str("--"),
    };
    foot.push(Piece { tone: if warn { Tone::Warn } else { Tone::Faint }, text: time });
    match n {
        Some(n) => {
            let age = clock.saturating_sub(n.touched);
            let has_text = !n.doing.as_str().is_empty() || !n.next.as_str().is_empty();
            if age >= STALE_SECS && has_text {
                let mut t = String::from_str(" · nota ");
                t.append(fmt_dur(age).as_str());
                foot.push(Piece { tone: Tone::Faint, text: t });
            }
        },
        None => {},
    }
    assert(foot.deep_view() =~= foot_line(sel, state, el, opt_view(n), clock));
    foot
}

/// The title of a column.
pub open spec fn col_title(c: Col) -> Seq<char> {
    match c {
        Col::Todo => "📝 TODO"@,
        Col::InProgress => "⏳ IN PROGRESS"@,
        Col::Waiting => "✅ WAITING"@,
    }
}

/// The key hints on the board.
pub open spec fn board_hints() -> Seq<char> {
    "[←→↑↓] nav  [J/K] mover lane  [1-6] asignar  [n]uevo [e]dit [d]el  [y] copiar  [s] enviar  [enter] saltar  [R] renombrar  [?] ayuda  [q] salir"@
}

impl App {
    /// The heading of column `col`: its title and how many cards it holds.
    pub fn column_heading(&self, col: Col) -> (r: String)
        ensures
            r@ == " "@ + col_title(col) + " · "@ + decimal(self.cells_spec(col).len()) + " "@,
    {
        let n = self.column_cells(col).len();
        let mut r = String::from_str(" ");
        match col {
            Col::Todo => r.append("📝 TODO"),
            Col::InProgress => r.append("⏳ IN PROGRESS"),
            Col::Waiting => r.append("✅ WAITING"),
        }
        r.append(" · ");
        push_decimal(&mut r, n as u64);
        r.append(" ");
        r
    }

    /// The key hints of the status bar: all the board's keys on the board,
    /// how to leave anywhere else.
    pub fn key_hints(&self) -> (r: &'static str)
        ensures
            r@ == if self.mode is Board {
                board_hints()
            } else {
                "[esc] cancelar"@
            },
    {
        match self.mode {
            Mode::Board => "[←→↑↓] nav  [J/K] mover lane  [1-6] asignar  [n]uevo [e]dit [d]el  [y] copiar  [s] enviar  [enter] saltar  [R] renombrar  [?] ayuda  [q] salir",
            _ => "[esc] cancelar",
        }
    }
}

/// Entry `i` of the list of send targets when entry `sel` is chosen: the
/// chosen one highlighted, those of the prompt's lane (their label starts
/// with "▸") in main text, the others faint.
pub open spec fn target_entry_spec(label: Seq<char>, i: usize, sel: usize) -> (Tone, Seq<char>) {
    let tone = if i == sel {
        Tone::Chosen
    } else if label.len() > 0 && label[0] == '▸' {
        Tone::Text
    } else {
        Tone::Faint
    };
    (tone, " "@ + label + " "@)
}

/// See [`target_entry_spec`].
pub fn target_entry(label: &str, i: usize, sel: usize) -> (r: Piece)
    ensures
        r.deep_view() == target_entry_spec(label@, i, sel),
{
    let tone = if i == sel {
        Tone::Chosen
    } else if label.unicode_len() > 0 && label.get_char(0) == '▸' {
        Tone::Text
    } else {
        Tone::Faint
    };
    let mut text = String::from_str(" ");
    text.append(label);
    text.append(" ");
    Piece { tone, text }
}

} // verus!

//! In-memory state of the board, navigation and actions on cards.

use vstd::prelude::*;
use crate::sorting::{lemma_sort_desc_elems, lemma_sort_desc_ordered, ordered_desc, sort_by_key_desc, sort_desc};
use crate::store::{now, lanes_upto, lemma_position_found, lemma_swap_back, lane_at, lane_label_of, lane_of_id, lane_swap, name_of, position_in, Note, NoteView, Prompt, PromptView, Store};
use crate::text::{blank, decimal, is_blank, push_decimal, trim, trim_chars, trim_end, trim_end_chars, lemma_trim_empty_iff_blank, lemma_trim_end_blank};
use crate::strmap::{key_set, StrMap};
use crate::tmux::{lemma_first_piece, lines, lines_of, split_on, strip_cr, Pane, PaneView, State};

verus! {

/// The three columns of the board.
#[derive(Debug, Clone, Copy, PartialEq, Eq, Structural)]
pub enum Col {
    Todo,
    InProgress,
    Waiting,
}

/// Position of a column, left to right.
pub open spec fn col_index(c: Col) -> usize {
    match c {
        Col::Todo => 0,
        Col::InProgress => 1,
        Col::Waiting => 2,
    }
}

/// The column at position `i`; anything past the middle is WAITING.
pub open spec fn col_at(i: usize) -> Col {
    if i == 0 {
        Col::Todo
    } else if i == 1 {
        Col::InProgress
    } else {
        Col::Waiting
    }
}

impl Col {
    /// Position of the column, left to right.
    pub fn idx(self) -> (r: usize)
        ensures
            r == col_index(self),
    {
        match self {
            Col::Todo => 0,
            Col::InProgress => 1,
            Col::Waiting => 2,
        }
    }

    /// The column at position `i`; anything past 1 is WAITING.
    pub fn from_idx(i: usize) -> (r: Col)
        ensures
            r == col_at(i),
    {
        match i {
            0 => Col::Todo,
            1 => Col::InProgress,
            _ => Col::Waiting,
        }
    }
}

/// Going to a column's position and back gives the column.
pub proof fn lemma_col_index_roundtrip(c: Col)
    ensures
        col_at(col_index(c)) == c,
        col_index(c) < 3,
{
}

/// What the user is doing right now.
#[derive(Debug)]
pub enum Mode {
    Board,
    /// Full-screen editor of a prompt. `Some(i)` edits prompt `i`; `None` is a
    /// new prompt.
    PromptEdit { idx: Option<usize>, buf: String, cur: usize },
    /// Editor of a pane's note, two fields.
    NoteEdit {
        pane: String,
        doing: String,
        next: String,
        /// 0 = doing, 1 = next
        field: usize,
    },
    /// Renaming a lane.
    LaneRename { lane: usize, buf: String },
    /// Confirmation before typing into a live pane. Deliberately explicit:
    /// typing into the wrong session puts text where it does not belong.
    SendConfirm {
        prompt_idx: usize,
        /// (pane id, label)
        targets: Vec<(String, String)>,
        sel: usize,
    },
    Help,
}

/// Visual position of a card in the active column, used by the 2-D
/// navigation (left/right between sub-columns, up/down within one).
#[derive(Debug, Clone, Copy, PartialEq, Eq, Structural)]
pub struct Cell {
    /// Linear index in the column's cells (what `App::row` holds).
    pub row: usize,
    /// Position of the lane in the painting order.
    pub lane_pos: usize,
    /// Sub-column: 0 = left, 1 = right.
    pub subcol: usize,
    /// Row within that sub-column of that lane.
    pub vrow: usize,
}

/// Work that the board asks its runner to do outside: writing the store,
/// talking to tmux.
#[derive(Debug, PartialEq, Eq)]
pub enum Effect {
    /// Write the store to disk.
    Save,
    /// Put text on the clipboard.
    Copy { text: String },
    /// Type text into a pane, without pressing Enter.
    Type { pane: String, text: String },
    /// Move tmux's focus to a pane.
    Focus { pane: String },
    /// List the panes again now.
    Refresh,
}

/// What an effect is, as plain values.
pub enum EffectView {
    Save,
    Copy(Seq<char>),
    Type(Seq<char>, Seq<char>),
    Focus(Seq<char>),
    Refresh,
}

impl DeepView for Effect {
    type V = EffectView;

    open spec fn deep_view(&self) -> EffectView {
        match self {
            Effect::Save => EffectView::Save,
            Effect::Copy { text } => EffectView::Copy(text@),
            Effect::Type { pane, text } => EffectView::Type(pane@, text@),
            Effect::Focus { pane } => EffectView::Focus(pane@),
            Effect::Refresh => EffectView::Refresh,
        }
    }
}

/// The board in memory.
pub struct App {
    pub store: Store,
    pub panes: Vec<Pane>,
    /// pane id -> epoch at which it entered its current state.
    pub since: StrMap<u64>,
    /// pane id -> state at the last refresh, to notice transitions.
    pub prev_state: StrMap<State>,
    pub col: Col,
    pub row: usize,
    pub mode: Mode,
    pub status: String,
    pub should_quit: bool,
    /// Sub-columns per section at the last drawing (1 or 2). Left/right
    /// navigation moves between sub-columns before jumping to the next
    /// section.
    pub section_cols: usize,
    /// The time, in epoch seconds, at which the current event is handled.
    pub clock: u64,
    /// Work asked of the runner, oldest first.
    pub effects: Vec<Effect>,
}

impl App {
    /// What the key handlers rely on, and keep: the lanes are whole (see
    /// `Store::valid`); an open editor refers to an existing prompt or lane;
    /// the prompt editor's cursor sits at the end of its text (no key moves
    /// it elsewhere); the note editor is on one of its two fields; a send
    /// waits on an existing prompt.
    pub open spec fn well_formed(&self) -> bool {
        &&& self.store.valid()
        &&& match self.mode {
            Mode::PromptEdit { idx, buf, cur } => {
                &&& idx matches Some(i) ==> i < self.store.prompts@.len()
                &&& cur == vstd::utf8::encode_utf8(buf@).len() as usize
            },
            Mode::NoteEdit { field, .. } => field <= 1,
            Mode::LaneRename { lane, .. } => lane < self.store.lane_names@.len(),
            Mode::SendConfirm { prompt_idx, .. } => prompt_idx < self.store.prompts@.len(),
            _ => true,
        }
    }
}

impl App {
    /// Whether the board is well formed (see `well_formed`).
    pub fn is_well_formed(&self) -> (r: bool)
        ensures
            r == self.well_formed(),
    {
        if !self.store.is_valid() {
            return false;
        }
        match &self.mode {
            Mode::PromptEdit { idx, buf, cur } => {
                let idx_ok = match idx {
                    Some(i) => *i < self.store.prompts.len(),
                    None => true,
                };
                idx_ok && *cur == buf.as_str().len()
            },
            Mode::NoteEdit { field, .. } => *field <= 1,
            Mode::LaneRename { lane, .. } => *lane < self.store.lane_names.len(),
            Mode::SendConfirm { prompt_idx, .. } => *prompt_idx < self.store.prompts.len(),
            _ => true,
        }
    }
}

/// Indices below `n` of the prompts that fall in `lane`, in order.
pub open spec fn prompt_indices(ps: Seq<PromptView>, lane: usize, n: nat) -> Seq<usize>
    decreases n,
{
    if n == 0 {
        Seq::empty()
    } else {
        let r = prompt_indices(ps, lane, (n - 1) as nat);
        if ps[n - 1].lane == lane {
            r.push((n - 1) as usize)
        } else {
            r
        }
    }
}

/// Indices below `n` of the panes in state `want` assigned to `lane`, in
/// order.
pub open spec fn pane_indices(
    ps: Seq<PaneView>,
    pane_lane: Map<Seq<char>, usize>,
    want: State,
    lane: usize,
    n: nat,
) -> Seq<usize>
    decreases n,
{
    if n == 0 {
        Seq::empty()
    } else {
        let r = pane_indices(ps, pane_lane, want, lane, (n - 1) as nat);
        if ps[n - 1].state == want && lane_of_id(pane_lane, ps[n - 1].id) == lane {
            r.push((n - 1) as usize)
        } else {
            r
        }
    }
}

/// Seconds a pane has spent in its state at time `clock`; `None` when its
/// state change was never seen.
pub open spec fn elapsed_of(since: Map<Seq<char>, u64>, clock: u64, id: Seq<char>) -> Option<u64> {
    if since.contains_key(id) {
        Some(
            if clock >= since[id] {
                (clock - since[id]) as u64
            } else {
                0
            },
        )
    } else {
        None
    }
}

/// Sort key of each pane: its elapsed time, 0 when unknown.
pub open spec fn pane_keys(ps: Seq<PaneView>, since: Map<Seq<char>, u64>, clock: u64) -> Seq<u64> {
    Seq::new(
        ps.len(),
        |i: int|
            match elapsed_of(since, clock, ps[i].id) {
                Some(e) => e,
                None => 0,
            },
    )
}

/// The cells `(lane, i)` for the items of one lane.
pub open spec fn tag_lane(lane: usize, items: Seq<usize>) -> Seq<(usize, usize)> {
    Seq::new(items.len(), |j: int| (lane, items[j]))
}

/// `row` brought inside `0..n` (0 when there is nothing).
pub open spec fn clamp_row(row: usize, n: nat) -> usize {
    if n == 0 {
        0
    } else if row >= n {
        (n - 1) as usize
    } else {
        row
    }
}

impl App {
    /// Indices of the prompts in `lane`.
    pub open spec fn prompts_in_spec(&self, lane: usize) -> Seq<usize> {
        prompt_indices(self.store.prompts.deep_view(), lane, self.store.prompts@.len())
    }

    /// Indices of the panes of `lane` shown in column `col`, longest in
    /// their state first.
    pub open spec fn panes_in_spec(&self, lane: usize, col: Col) -> Seq<usize> {
        let ps = self.panes.deep_view();
        let keys = pane_keys(ps, self.since@, self.clock);
        match col {
            Col::Todo => Seq::empty(),
            Col::InProgress => sort_desc(
                pane_indices(ps, self.store.pane_lane@, State::Working, lane, ps.len()),
                keys,
            ),
            Col::Waiting => sort_desc(
                pane_indices(ps, self.store.pane_lane@, State::Waiting, lane, ps.len()),
                keys,
            ),
        }
    }

    /// The cards of `lane` in column `col`: prompt indices in TODO, pane
    /// indices elsewhere.
    pub open spec fn items_spec(&self, lane: usize, col: Col) -> Seq<usize> {
        if col == Col::Todo {
            self.prompts_in_spec(lane)
        } else {
            self.panes_in_spec(lane, col)
        }
    }

    /// Cells of column `col` for the first `k` lanes in painting order.
    pub open spec fn cells_upto(&self, col: Col, k: nat) -> Seq<(usize, usize)>
        decreases k,
    {
        if k == 0 {
            Seq::empty()
        } else {
            let lane = self.store.lane_order@[k - 1];
            self.cells_upto(col, (k - 1) as nat) + tag_lane(lane, self.items_spec(lane, col))
        }
    }

    /// All the cells of column `col`, flattened lane by lane in painting
    /// order: `(lane, index in prompts or panes)`.
    pub open spec fn cells_spec(&self, col: Col) -> Seq<(usize, usize)> {
        self.cells_upto(col, self.store.lane_order@.len())
    }

    /// The selected card.
    pub open spec fn selected_spec(&self) -> Option<(usize, usize)> {
        let c = self.cells_spec(self.col);
        if self.row < c.len() {
            Some(c[self.row as int])
        } else {
            None
        }
    }
}

/// Ids of the panes, in order.
pub open spec fn ids_of(ps: Seq<PaneView>) -> Seq<Seq<char>> {
    Seq::new(ps.len(), |i: int| ps[i].id)
}

impl App {
    /// A board over `store`, with no panes seen yet, in the TODO column.
    pub fn new(store: Store) -> (a: App)
        ensures
            a.store == store,
            a.panes@.len() == 0,
            a.since@ == Map::<Seq<char>, u64>::empty(),
            a.prev_state@ == Map::<Seq<char>, State>::empty(),
            a.col == Col::Todo,
            a.row == 0,
            a.mode is Board,
            a.status@ == "ready"@,
            !a.should_quit,
            a.section_cols == 1,
            a.clock == 0,
            a.effects@.len() == 0,
            a.well_formed() == store.valid(),
    {
        App {
            store,
            panes: Vec::new(),
            since: StrMap::new(),
            prev_state: StrMap::new(),
            col: Col::Todo,
            row: 0,
            mode: Mode::Board,
            status: String::from_str("ready"),
            should_quit: false,
            section_cols: 1,
            clock: 0,
            effects: Vec::new(),
        }
    }

    /// Reads the system clock into `clock`, the time at which the next event
    /// is handled. Nothing is known of the value read; everything else stays.
    pub fn read_clock(&mut self)
        ensures
            *final(self) == (App { clock: final(self).clock, ..*old(self) }),
    {
        self.clock = now();
    }

    /// Ids of the live panes.
    pub fn live_ids(&self) -> (r: Vec<String>)
        ensures
            r.deep_view() == ids_of(self.panes.deep_view()),
    {
        let mut r: Vec<String> = Vec::new();
        let n = self.panes.len();
        let mut i: usize = 0;
        while i < n
            invariant
                i <= n,
                n == self.panes@.len(),
                r@.len() == i,
                forall|j: int| 0 <= j < i ==> (#[trigger] r@[j])@ == self.panes@[j].id@,
            decreases n - i,
        {
            r.push(self.panes[i].id.clone());
            i = i + 1;
        }
        assert(r.deep_view() =~= ids_of(self.panes.deep_view()));
        r
    }

    /// Seconds the pane has spent in its current state, counted from when
    /// the board first saw it there.
    pub fn elapsed(&self, pane_id: &str) -> (r: Option<u64>)
        ensures
            r == elapsed_of(self.since@, self.clock, pane_id@),
    {
        let key = pane_id.to_owned();
        match self.since.get(&key) {
            Some(s) => Some(self.clock.saturating_sub(*s)),
            None => None,
        }
    }

    /// Indices of the prompts that fall in a lane.
    pub fn prompts_in(&self, lane: usize) -> (r: Vec<usize>)
        ensures
            r@ == self.prompts_in_spec(lane),
    {
        let ghost ps = self.store.prompts.deep_view();
        let n = self.store.prompts.len();
        let mut r: Vec<usize> = Vec::new();
        let mut i: usize = 0;
        while i < n
            invariant
                i <= n,
                n == ps.len(),
                ps == self.store.prompts.deep_view(),
                r@ == prompt_indices(ps, lane, i as nat),
            decreases n - i,
        {
            assert(ps[i as int].lane == self.store.prompts@[i as int].lane);
            if self.store.prompts[i].lane == lane {
                r.push(i);
            }
            i = i + 1;
        }
        r
    }

    /// Sort key of each pane: its elapsed time, 0 when unknown.
    fn pane_keys(&self) -> (r: Vec<u64>)
        ensures
            r@ == pane_keys(self.panes.deep_view(), self.since@, self.clock),
    {
        let n = self.panes.len();
        let mut r: Vec<u64> = Vec::new();
        let mut i: usize = 0;
        while i < n
            invariant
                i <= n,
                n == self.panes@.len(),
                r@.len() == i,
                forall|j: int|
                    0 <= j < i ==> #[trigger] r@[j] == match elapsed_of(
                        self.since@,
                        self.clock,
                        self.panes@[j].id@,
                    ) {
                        Some(e) => e,
                        None => 0,
                    },
            decreases n - i,
        {
            let k = match self.elapsed(self.panes[i].id.as_str()) {
                Some(e) => e,
                None => 0,
            };
            r.push(k);
            i = i + 1;
        }
        assert(r@ =~= pane_keys(self.panes.deep_view(), self.since@, self.clock));
        r
    }

    /// Panes of a lane in a column, longest in their state first: what has
    /// been waiting the longest rises to the top.
    pub fn panes_in(&self, lane: usize, col: Col) -> (r: Vec<usize>)
        ensures
            r@ == self.panes_in_spec(lane, col),
    {
        let want = match col {
            Col::InProgress => State::Working,
            Col::Waiting => State::Waiting,
            Col::Todo => {
                return Vec::new();
            },
        };
        let ghost ps = self.panes.deep_view();
        let n = self.panes.len();
        let mut v: Vec<usize> = Vec::new();
        let mut i: usize = 0;
        while i < n
            invariant
                i <= n,
                n == ps.len(),
                ps == self.panes.deep_view(),
                v@ == pane_indices(ps, self.store.pane_lane@, want, lane, i as nat),
                forall|j: int| 0 <= j < v@.len() ==> #[trigger] v@[j] < n,
            decreases n - i,
        {
            assert(ps[i as int] == self.panes@[i as int]@);
            if self.panes[i].state == want && self.store.lane_of(self.panes[i].id.as_str()) == lane {
                v.push(i);
            }
            i = i + 1;
        }
        let keys = self.pane_keys();
        sort_by_key_desc(&v, &keys)
    }

    /// Every cell of a column, flattened lane by lane in painting order, so
    /// that up/down follow what is on screen: `(lane, index in prompts or
    /// panes)`.
    pub fn column_cells(&self, col: Col) -> (r: Vec<(usize, usize)>)
        ensures
            r@ == self.cells_spec(col),
    {
        let mut out: Vec<(usize, usize)> = Vec::new();
        let n = self.store.lane_order.len();
        let mut k: usize = 0;
        while k < n
            invariant
                k <= n,
                n == self.store.lane_order@.len(),
                out@ == self.cells_upto(col, k as nat),
            decreases n - k,
        {
            let lane = self.store.lane_order[k];
            let items = if col == Col::Todo {
                self.prompts_in(lane)
            } else {
                self.panes_in(lane, col)
            };
            let ghost base = out@;
            let m = items.len();
            let mut j: usize = 0;
            while j < m
                invariant
                    j <= m,
                    m == items@.len(),
                    items@ == self.items_spec(lane, col),
                    out@ == base + tag_lane(lane, items@.take(j as int)),
                decreases m - j,
            {
                out.push((lane, items[j]));
                j = j + 1;
                assert(out@ =~= base + tag_lane(lane, items@.take(j as int)));
            }
            assert(items@.take(m as int) =~= items@);
            k = k + 1;
        }
        out
    }

    /// The selected card, `(lane, index)`.
    pub fn selected(&self) -> (r: Option<(usize, usize)>)
        ensures
            r == self.selected_spec(),
    {
        let cells = self.column_cells(self.col);
        if self.row < cells.len() {
            Some(cells[self.row])
        } else {
            None
        }
    }

    /// Brings the selection back inside the active column.
    fn clamp(&mut self)
        ensures
            final(self).row == clamp_row(old(self).row, old(self).cells_spec(old(self).col).len()),
            final(self).store == old(self).store,
            final(self).panes == old(self).panes,
            final(self).since == old(self).since,
            final(self).prev_state == old(self).prev_state,
            final(self).col == old(self).col,
            final(self).mode == old(self).mode,
            final(self).status == old(self).status,
            final(self).should_quit == old(self).should_quit,
            final(self).section_cols == old(self).section_cols,
            final(self).clock == old(self).clock,
            final(self).effects == old(self).effects,
            forall|c: Col| #[trigger] final(self).cells_spec(c) == old(self).cells_spec(c),
    {
        let n = self.column_cells(self.col).len();
        if n == 0 {
            self.row = 0;
        } else if self.row >= n {
            self.row = n - 1;
        }
        proof {
            lemma_same_board(&*self, &*old(self));
        }
    }
}

/// `(pos + d)` wrapped into `0..len`.
fn wrap_step(pos: usize, d: i32, len: usize) -> (r: usize)
    requires
        pos < len,
    ensures
        r == (pos + d) % (len as int),
        r < len,
{
    let neg = d < 0;
    let a: u64 = if neg {
        (-(d as i64)) as u64
    } else {
        d as u64
    };
    let k: usize = (a % (len as u64)) as usize;
    proof {
        let m = len as int;
        let ai = a as int;
        vstd::arithmetic::div_mod::lemma_fundamental_div_mod(ai, m);
        let q = ai / m;
        assert(ai == m * q + k);
        if !neg {
            assert((pos + d) == m * q + (pos + k));
            vstd::arithmetic::div_mod::lemma_mod_multiples_vanish(q, pos + k, m);
            if pos + k >= m {
                vstd::arithmetic::div_mod::lemma_mod_sub_multiples_vanish(pos + k, m);
                vstd::arithmetic::div_mod::lemma_small_mod((pos + k - m) as nat, m as nat);
            } else {
                vstd::arithmetic::div_mod::lemma_small_mod((pos + k) as nat, m as nat);
            }
        } else {
            assert(ai == -d);
            assert(m * (-q) == -(m * q)) by (nonlinear_arith);
            assert((pos + d) == m * (-q) + (pos - k));
            vstd::arithmetic::div_mod::lemma_mod_multiples_vanish(-q, pos - k, m);
            if pos >= k {
                vstd::arithmetic::div_mod::lemma_small_mod((pos - k) as nat, m as nat);
            } else {
                vstd::arithmetic::div_mod::lemma_mod_add_multiples_vanish(pos - k, m);
                vstd::arithmetic::div_mod::lemma_small_mod((m + pos - k) as nat, m as nat);
            }
        }
    }
    if !neg {
        if pos >= len - k {
            pos - (len - k)
        } else {
            pos + k
        }
    } else {
        if pos >= k {
            pos - k
        } else {
            pos + (len - k)
        }
    }
}

/// The cells of one lane at linear rows `base..`, in lane position
/// `lane_pos`, for `m` cards: with two sub-columns the first half (rounded
/// up) goes left and the rest right.
pub open spec fn lane_cells(base: nat, lane_pos: nat, m: nat, two: bool) -> Seq<Cell> {
    let split = if two {
        (m + 1) / 2
    } else {
        m
    };
    Seq::new(
        m,
        |j: int|
            Cell {
                row: (base + j) as usize,
                lane_pos: lane_pos as usize,
                subcol: if j < split {
                    0
                } else {
                    1
                },
                vrow: (if j < split {
                    j
                } else {
                    j - split
                }) as usize,
            },
    )
}

/// Distance between two rows.
pub open spec fn row_dist(a: usize, b: usize) -> nat {
    if a >= b {
        (a - b) as nat
    } else {
        (b - a) as nat
    }
}

/// The first cell of lane position `lane_pos` and sub-column `subcol` whose
/// row is nearest to `vrow` (`min_by_key` keeps the first of equals).
pub open spec fn nearest(g: Seq<Cell>, lane_pos: usize, subcol: int, vrow: usize) -> Option<Cell>
    decreases g.len(),
{
    if g.len() == 0 {
        None
    } else {
        let b = nearest(g.drop_last(), lane_pos, subcol, vrow);
        let c = g.last();
        if c.lane_pos == lane_pos && c.subcol == subcol && (b is None || row_dist(c.vrow, vrow)
            < row_dist(b->0.vrow, vrow)) {
            Some(c)
        } else {
            b
        }
    }
}

/// The cells of `g` in sub-column `subcol`, in order.
pub open spec fn sub_column(g: Seq<Cell>, subcol: usize) -> Seq<Cell>
    decreases g.len(),
{
    if g.len() == 0 {
        Seq::empty()
    } else {
        let r = sub_column(g.drop_last(), subcol);
        if g.last().subcol == subcol {
            r.push(g.last())
        } else {
            r
        }
    }
}

/// Index in `c` of the first cell with linear row `row`.
pub open spec fn row_index(c: Seq<Cell>, row: usize) -> Option<nat>
    decreases c.len(),
{
    if c.len() == 0 {
        None
    } else {
        match row_index(c.drop_last(), row) {
            Some(i) => Some(i),
            None => if c.last().row == row {
                Some((c.len() - 1) as nat)
            } else {
                None
            },
        }
    }
}

/// `i` clamped into the column positions `0..=2`.
pub open spec fn clamp_col(i: int) -> usize {
    if i < 0 {
        0
    } else if i > 2 {
        2
    } else {
        i as usize
    }
}

impl App {
    /// Geometry of the active column for its first `k` lanes in painting
    /// order.
    pub open spec fn grid_upto(&self, k: nat) -> Seq<Cell>
        decreases k,
    {
        if k == 0 {
            Seq::empty()
        } else {
            let g = self.grid_upto((k - 1) as nat);
            let lane = self.store.lane_order@[k - 1];
            g + lane_cells(
                g.len(),
                (k - 1) as nat,
                self.items_spec(lane, self.col).len(),
                self.section_cols >= 2,
            )
        }
    }

    /// Visual geometry of the active column: one cell per card, with its
    /// linear index and its place on screen, as the drawing lays it out.
    pub open spec fn grid_spec(&self) -> Seq<Cell> {
        self.grid_upto(self.store.lane_order@.len())
    }

    /// The selected card's cell.
    pub open spec fn cur_cell(&self) -> Option<Cell> {
        let g = self.grid_spec();
        if self.row < g.len() {
            Some(g[self.row as int])
        } else {
            None
        }
    }

    /// Row that a sideways move by `d` reaches without leaving the column:
    /// the nearest card in the target sub-column of the same lane.
    pub open spec fn side_target(&self, d: int) -> Option<usize> {
        match self.cur_cell() {
            Some(cur) => if cur.subcol + d >= 0 {
                match nearest(self.grid_spec(), cur.lane_pos, cur.subcol + d, cur.vrow) {
                    Some(b) => Some(b.row),
                    None => None,
                }
            } else {
                None
            },
            None => None,
        }
    }

    /// Row reached by moving `d` cards up/down within the current
    /// sub-column, wrapping around; `None` when nothing is selected.
    pub open spec fn vertical_target(&self, d: int) -> Option<usize> {
        match self.cur_cell() {
            Some(cur) => {
                let column = sub_column(self.grid_spec(), cur.subcol);
                match row_index(column, self.row) {
                    Some(pos) => Some(column[(pos + d) % (column.len() as int)].row),
                    None => if d != 0 {
                        Some(((self.row + d) % (self.grid_spec().len() as int)) as usize)
                    } else {
                        None
                    },
                }
            },
            None => None,
        }
    }

    /// The geometry is as long as the column, and each cell's row is its
    /// index.
    pub proof fn lemma_grid_rows(&self, k: nat)
        requires
            k <= self.store.lane_order@.len(),
            self.grid_upto(k).len() <= usize::MAX,
        ensures
            self.grid_upto(k).len() == self.cells_upto(self.col, k).len(),
            forall|r: int| 0 <= r < self.grid_upto(k).len() ==> (#[trigger] self.grid_upto(k)[r]).row == r,
        decreases k,
    {
        if k > 0 {
            self.lemma_grid_rows((k - 1) as nat);
        }
    }

    /// A cell is in the left or the right sub-column.
    pub proof fn lemma_grid_subcols(&self, k: nat)
        ensures
            forall|r: int| 0 <= r < self.grid_upto(k).len() ==> (#[trigger] self.grid_upto(k)[r]).subcol <= 1,
        decreases k,
    {
        if k > 0 {
            self.lemma_grid_subcols((k - 1) as nat);
            let g = self.grid_upto((k - 1) as nat);
            assert forall|r: int| 0 <= r < self.grid_upto(k).len() implies (#[trigger] self.grid_upto(k)[r]).subcol <= 1 by {
                if r < g.len() {
                    assert(self.grid_upto(k)[r] == g[r]);
                }
            }
        }
    }

    /// Geometry of the active column (see `grid_spec`).
    fn grid(&self) -> (r: Vec<Cell>)
        ensures
            r@ == self.grid_spec(),
    {
        let two = self.section_cols >= 2;
        let mut out: Vec<Cell> = Vec::new();
        let n = self.store.lane_order.len();
        let mut k: usize = 0;
        while k < n
            invariant
                k <= n,
                n == self.store.lane_order@.len(),
                two == (self.section_cols >= 2),
                out@ == self.grid_upto(k as nat),
            decreases n - k,
        {
            let lane = self.store.lane_order[k];
            let items = if self.col == Col::Todo {
                self.prompts_in(lane)
            } else {
                self.panes_in(lane, self.col)
            };
            let m = items.len();
            let split = if two {
                m / 2 + m % 2
            } else {
                m
            };
            assert(split == if two { (m + 1) / 2 } else { m as int });
            let ghost base = out@;
            let mut j: usize = 0;
            while j < m
                invariant
                    j <= m,
                    m == self.items_spec(lane, self.col).len(),
                    split == if two { (m + 1) / 2 } else { m as int },
                    out@ == base + lane_cells(base.len(), k as nat, m as nat, two).take(j as int),
                    out@.len() == base.len() + j,
                decreases m - j,
            {
                let (subcol, vrow) = if j < split {
                    (0usize, j)
                } else {
                    (1usize, j - split)
                };
                let row = out.len();
                out.push(Cell { row, lane_pos: k, subcol, vrow });
                j = j + 1;
                assert(out@ =~= base + lane_cells(base.len(), k as nat, m as nat, two).take(j as int));
            }
            assert(lane_cells(base.len(), k as nat, m as nat, two).take(m as int) =~= lane_cells(
                base.len(),
                k as nat,
                m as nat,
                two,
            ));
            k = k + 1;
        }
        out
    }
}

/// See [`nearest`].
fn nearest_in(g: &Vec<Cell>, lane_pos: usize, subcol: i64, vrow: usize) -> (r: Option<Cell>)
    ensures
        r == nearest(g@, lane_pos, subcol as int, vrow),
{
    let mut best: Option<Cell> = None;
    let n = g.len();
    let mut i: usize = 0;
    assert(g@.take(0) =~= Seq::<Cell>::empty());
    while i < n
        invariant
            i <= n,
            n == g@.len(),
            best == nearest(g@.take(i as int), lane_pos, subcol as int, vrow),
        decreases n - i,
    {
        let c = g[i];
        assert(g@.take(i + 1).drop_last() =~= g@.take(i as int));
        assert(g@.take(i + 1).last() == c);
        if c.lane_pos == lane_pos && subcol >= 0 && c.subcol as u64 == subcol as u64 {
            let dc = if c.vrow >= vrow {
                c.vrow - vrow
            } else {
                vrow - c.vrow
            };
            let better = match best {
                None => true,
                Some(b) => {
                    let db = if b.vrow >= vrow {
                        b.vrow - vrow
                    } else {
                        vrow - b.vrow
                    };
                    dc < db
                },
            };
            if better {
                best = Some(c);
            }
        }
        i = i + 1;
    }
    assert(g@.take(n as int) =~= g@);
    best
}

/// See [`sub_column`].
fn sub_column_of(g: &Vec<Cell>, subcol: usize) -> (r: Vec<Cell>)
    ensures
        r@ == sub_column(g@, subcol),
{
    let mut out: Vec<Cell> = Vec::new();
    let n = g.len();
    let mut i: usize = 0;
    assert(g@.take(0) =~= Seq::<Cell>::empty());
    while i < n
        invariant
            i <= n,
            n == g@.len(),
            out@ == sub_column(g@.take(i as int), subcol),
        decreases n - i,
    {
        assert(g@.take(i + 1).drop_last() =~= g@.take(i as int));
        assert(g@.take(i + 1).last() == g@[i as int]);
        if g[i].subcol == subcol {
            out.push(g[i]);
        }
        i = i + 1;
    }
    assert(g@.take(n as int) =~= g@);
    out
}

/// See [`row_index`].
fn row_index_of(c: &Vec<Cell>, row: usize) -> (r: Option<usize>)
    ensures
        match row_index(c@, row) {
            Some(i) => r == Some(i as usize) && i < c@.len(),
            None => r is None,
        },
{
    let n = c.len();
    let mut i: usize = 0;
    assert(c@.take(0) =~= Seq::<Cell>::empty());
    while i < n
        invariant
            i <= n,
            n == c@.len(),
            row_index(c@.take(i as int), row) is None,
        decreases n - i,
    {
        assert(c@.take(i + 1).drop_last() =~= c@.take(i as int));
        assert(c@.take(i + 1).last() == c@[i as int]);
        if c[i].row == row {
            proof {
                lemma_row_index_found(c@, row, i as int);
            }
            return Some(i);
        }
        i = i + 1;
    }
    assert(c@.take(n as int) =~= c@);
    None
}

/// Once a prefix holds the row, the first index is found in that prefix.
proof fn lemma_row_index_found(c: Seq<Cell>, row: usize, i: int)
    requires
        0 <= i < c.len(),
        row_index(c.take(i), row) is None,
        c[i].row == row,
    ensures
        row_index(c, row) == Some(i as nat),
    decreases c.len(),
{
    if c.len() - 1 == i {
        assert(c.drop_last() =~= c.take(i));
    } else {
        assert(c.drop_last().take(i) =~= c.take(i));
        lemma_row_index_found(c.drop_last(), row, i);
    }
}

impl App {
    /// What `move_col` does: `self` before, `b` after.
    pub open spec fn move_col_post(self, b: App, d: i32) -> bool {
        &&& match self.side_target(d as int) {
            Some(r) => b.row == r && b.col == self.col,
            None => {
                let new = col_at(clamp_col(col_index(self.col) + d));
                if new != self.col {
                    b.col == new && b.row == 0
                } else {
                    b.col == self.col && b.row == self.row
                }
            },
        }
        &&& b.store == self.store
        &&& b.panes == self.panes
        &&& b.since == self.since
        &&& b.prev_state == self.prev_state
        &&& b.mode == self.mode
        &&& b.status == self.status
        &&& b.should_quit == self.should_quit
        &&& b.section_cols == self.section_cols
        &&& b.clock == self.clock
        &&& b.effects == self.effects
    }

    /// Left/right. Moves first between the sub-columns of the current lane,
    /// to the nearest card; only at the edge does it jump to the next
    /// column (TODO / IN PROGRESS / WAITING), at its first card.
    pub fn move_col(&mut self, d: i32)
        requires
            old(self).cur_cell() matches Some(c) ==> c.subcol + d <= i32::MAX,
            old(self).side_target(d as int) is None ==> col_index(old(self).col) + d <= i32::MAX,
        ensures
            old(self).move_col_post(*final(self), d),
    {
        let grid = self.grid();
        let glen = grid.len();
        let r = self.row;
        if r < glen {
            let cur = grid[r];
            let target: i64 = cur.subcol as i64 + d as i64;
            if target >= 0 {
                match nearest_in(&grid, cur.lane_pos, target, cur.vrow) {
                    Some(best) => {
                        self.row = best.row;
                        return;
                    },
                    None => {},
                }
            }
        }
        let i: i64 = self.col.idx() as i64 + d as i64;
        let c: usize = if i < 0 {
            0
        } else if i > 2 {
            2
        } else {
            i as usize
        };
        let new = Col::from_idx(c);
        if new != self.col {
            self.col = new;
            self.row = 0;
        }
    }

    /// What `move_row` does: `self` before, `b` after.
    pub open spec fn move_row_post(self, b: App, d: i32) -> bool {
        &&& b.row == match self.vertical_target(d as int) {
            Some(r) => r,
            None => self.row,
        }
        &&& b.store == self.store
        &&& b.panes == self.panes
        &&& b.since == self.since
        &&& b.prev_state == self.prev_state
        &&& b.col == self.col
        &&& b.mode == self.mode
        &&& b.status == self.status
        &&& b.should_quit == self.should_quit
        &&& b.section_cols == self.section_cols
        &&& b.clock == self.clock
        &&& b.effects == self.effects
    }

    /// Up/down within the current sub-column, across lanes in painting
    /// order, wrapping around.
    pub fn move_row(&mut self, d: i32)
        ensures
            old(self).move_row_post(*final(self), d),
    {
        let grid = self.grid();
        if grid.len() == 0 {
            return;
        }
        let r = self.row;
        if r >= grid.len() {
            return;
        }
        let cur = grid[r];
        let column = sub_column_of(&grid, cur.subcol);
        match row_index_of(&column, r) {
            Some(pos) => {
                let np = wrap_step(pos, d, column.len());
                self.row = column[np].row;
            },
            None => {
                if d != 0 {
                    self.row = wrap_step(r, d, grid.len());
                }
            },
        }
    }
}

proof fn lemma_prompt_indices(ps: Seq<PromptView>, lane: usize, n: nat)
    requires
        n <= ps.len(),
        n <= usize::MAX,
    ensures
        forall|x: usize| #[trigger] prompt_indices(ps, lane, n).contains(x) <==> (x < n && ps[x as int].lane == lane),
    decreases n,
{
    if n > 0 {
        lemma_prompt_indices(ps, lane, (n - 1) as nat);
        let r = prompt_indices(ps, lane, (n - 1) as nat);
        assert forall|x: usize| #[trigger] prompt_indices(ps, lane, n).contains(x) <==> (x < n
            && ps[x as int].lane == lane) by {
            if x == n - 1 && ps[x as int].lane == lane {
                assert(prompt_indices(ps, lane, n)[r.len() as int] == x);
            }
            if x < n - 1 && ps[x as int].lane == lane {
                assert(r.contains(x));
                let j = choose|j: int| 0 <= j < r.len() && r[j] == x;
                assert(prompt_indices(ps, lane, n)[j] == x);
            }
            if prompt_indices(ps, lane, n).contains(x) {
                let j = choose|j: int| 0 <= j < prompt_indices(ps, lane, n).len() && prompt_indices(ps, lane, n)[j] == x;
                if j < r.len() {
                    assert(r[j] == x);
                    assert(r.contains(x));
                }
            }
        }
    }
}

proof fn lemma_pane_indices(
    ps: Seq<PaneView>,
    pane_lane: Map<Seq<char>, usize>,
    want: State,
    lane: usize,
    n: nat,
)
    requires
        n <= ps.len(),
        n <= usize::MAX,
    ensures
        forall|x: usize|
            #[trigger] pane_indices(ps, pane_lane, want, lane, n).contains(x) <==> (x < n
                && ps[x as int].state == want && lane_of_id(pane_lane, ps[x as int].id) == lane),
    decreases n,
{
    if n > 0 {
        lemma_pane_indices(ps, pane_lane, want, lane, (n - 1) as nat);
        let r = pane_indices(ps, pane_lane, want, lane, (n - 1) as nat);
        let q = pane_indices(ps, pane_lane, want, lane, n);
        assert forall|x: usize| #[trigger] q.contains(x) <==> (x < n && ps[x as int].state == want
            && lane_of_id(pane_lane, ps[x as int].id) == lane) by {
            let ok = ps[x as int].state == want && lane_of_id(pane_lane, ps[x as int].id) == lane;
            if x == n - 1 && ok {
                assert(q[r.len() as int] == x);
            }
            if x < n - 1 && ok {
                assert(r.contains(x));
                let j = choose|j: int| 0 <= j < r.len() && r[j] == x;
                assert(q[j] == x);
            }
            if q.contains(x) {
                let j = choose|j: int| 0 <= j < q.len() && q[j] == x;
                if j < r.len() {
                    assert(r[j] == x);
                    assert(r.contains(x));
                }
            }
        }
    }
}

/// Pane lanes that agree on the given panes select the same panes.
proof fn lemma_pane_indices_agree(
    ps: Seq<PaneView>,
    a: Map<Seq<char>, usize>,
    b: Map<Seq<char>, usize>,
    want: State,
    lane: usize,
    n: nat,
)
    requires
        n <= ps.len(),
        forall|i: int| 0 <= i < ps.len() ==> lane_of_id(a, #[trigger] ps[i].id) == lane_of_id(b, ps[i].id),
    ensures
        pane_indices(ps, a, want, lane, n) == pane_indices(ps, b, want, lane, n),
    decreases n,
{
    if n > 0 {
        lemma_pane_indices_agree(ps, a, b, want, lane, (n - 1) as nat);
        assert(lane_of_id(a, ps[n - 1].id) == lane_of_id(b, ps[n - 1].id));
    }
}

/// The set of the ids of `ps`.
pub open spec fn id_set(ps: Seq<PaneView>) -> Set<Seq<char>> {
    Set::new(|k: Seq<char>| exists|i: int| 0 <= i < ps.len() && ps[i].id == k)
}

impl App {
    /// The prompt and pane lists fit in memory (their lengths are `usize`).
    pub open spec fn sized(&self) -> bool {
        self.store.prompts@.len() <= usize::MAX && self.panes@.len() <= usize::MAX
    }

    /// A card of a lane in a column: prompt `x` of that lane in TODO, pane
    /// `x` of that lane in the matching state elsewhere.
    pub open spec fn is_item(&self, lane: usize, col: Col, x: usize) -> bool {
        match col {
            Col::Todo => x < self.store.prompts@.len() && self.store.prompts@[x as int].lane == lane,
            Col::InProgress => x < self.panes@.len() && self.panes@[x as int].state == State::Working
                && lane_of_id(self.store.pane_lane@, self.panes@[x as int].id@) == lane,
            Col::Waiting => x < self.panes@.len() && self.panes@[x as int].state == State::Waiting
                && lane_of_id(self.store.pane_lane@, self.panes@[x as int].id@) == lane,
        }
    }

    /// The items of a lane are exactly its cards.
    pub proof fn lemma_items(&self, lane: usize, col: Col)
        requires
            self.sized(),
        ensures
            forall|x: usize| #[trigger] self.items_spec(lane, col).contains(x) <==> self.is_item(lane, col, x),
    {
        let ps = self.panes.deep_view();
        let keys = pane_keys(ps, self.since@, self.clock);
        if col == Col::Todo {
            lemma_prompt_indices(self.store.prompts.deep_view(), lane, self.store.prompts@.len());
        } else {
            let want = if col == Col::InProgress {
                State::Working
            } else {
                State::Waiting
            };
            lemma_pane_indices(ps, self.store.pane_lane@, want, lane, ps.len());
            lemma_sort_desc_elems(pane_indices(ps, self.store.pane_lane@, want, lane, ps.len()), keys);
        }
    }

    /// A cell of a column is a card of a lane of the order, and every such
    /// card has a cell.
    pub proof fn lemma_cells(&self, col: Col, k: nat)
        requires
            k <= self.store.lane_order@.len(),
            self.sized(),
        ensures
            forall|c: (usize, usize)|
                #[trigger] self.cells_upto(col, k).contains(c) <==> (exists|t: int|
                    0 <= t < k && self.store.lane_order@[t] == c.0) && self.is_item(c.0, col, c.1),
        decreases k,
    {
        if k > 0 {
            self.lemma_cells(col, (k - 1) as nat);
            let lane = self.store.lane_order@[k - 1];
            self.lemma_items(lane, col);
            let prev = self.cells_upto(col, (k - 1) as nat);
            let add = tag_lane(lane, self.items_spec(lane, col));
            let all = self.cells_upto(col, k);
            assert(all == prev + add);
            assert forall|c: (usize, usize)| #[trigger] all.contains(c) <==> (exists|t: int|
                0 <= t < k && self.store.lane_order@[t] == c.0) && self.is_item(c.0, col, c.1) by {
                if all.contains(c) {
                    let j = choose|j: int| 0 <= j < all.len() && all[j] == c;
                    if j < prev.len() {
                        assert(prev[j] == c);
                        assert(prev.contains(c));
                        let t = choose|t: int| 0 <= t < k - 1 && self.store.lane_order@[t] == c.0;
                        assert(0 <= t < k && self.store.lane_order@[t] == c.0);
                    } else {
                        assert(add[j - prev.len()] == c);
                        assert(self.items_spec(lane, col).contains(c.1));
                        assert(self.store.lane_order@[k - 1] == c.0);
                    }
                }
                if (exists|t: int| 0 <= t < k && self.store.lane_order@[t] == c.0) && self.is_item(
                    c.0,
                    col,
                    c.1,
                ) {
                    let t = choose|t: int| 0 <= t < k && self.store.lane_order@[t] == c.0;
                    if t < k - 1 {
                        assert(prev.contains(c));
                        let j = choose|j: int| 0 <= j < prev.len() && prev[j] == c;
                        assert(all[j] == c);
                    } else {
                        assert(c.0 == lane);
                        assert(self.items_spec(lane, col).contains(c.1));
                        let j = choose|j: int|
                            0 <= j < self.items_spec(lane, col).len() && self.items_spec(lane, col)[j] == c.1;
                        assert(add[j] == c);
                        assert(all[prev.len() + j] == c);
                    }
                }
            }
        }
    }
}

/// Restricting the pane lanes to a set that holds a pane's id keeps that
/// pane's lane.
proof fn lemma_lane_of_restrict(m: Map<Seq<char>, usize>, s: Set<Seq<char>>, id: Seq<char>)
    requires
        s.contains(id),
    ensures
        lane_of_id(m.restrict(s), id) == lane_of_id(m, id),
{
}

/// The set of keys of the live ids is the set of pane ids.
proof fn lemma_live_key_set(ids: Seq<String>, ps: Seq<PaneView>)
    requires
        ids.len() == ps.len(),
        forall|i: int| 0 <= i < ids.len() ==> (#[trigger] ids[i])@ == ps[i].id,
    ensures
        key_set(ids) == id_set(ps),
{
    assert forall|k: Seq<char>| #[trigger] key_set(ids).contains(k) == id_set(ps).contains(k) by {
        if key_set(ids).contains(k) {
            let i = choose|i: int| 0 <= i < ids.len() && ids[i]@ == k;
            assert(ps[i].id == k);
        }
        if id_set(ps).contains(k) {
            let i = choose|i: int| 0 <= i < ps.len() && ps[i].id == k;
            assert(ids[i]@ == k);
        }
    }
    assert(key_set(ids) =~= id_set(ps));
}

/// Two boards that agree on everything the columns are built from have the
/// same columns.
pub proof fn lemma_cells_same(a: &App, b: &App, col: Col, k: nat)
    requires
        a.panes.deep_view() == b.panes.deep_view(),
        a.panes@.len() == b.panes@.len(),
        a.since@ == b.since@,
        a.clock == b.clock,
        a.store.prompts.deep_view() == b.store.prompts.deep_view(),
        a.store.prompts@.len() == b.store.prompts@.len(),
        a.store.lane_order@ == b.store.lane_order@,
        forall|i: int|
            0 <= i < a.panes@.len() ==> lane_of_id(a.store.pane_lane@, #[trigger] a.panes@[i].id@)
                == lane_of_id(b.store.pane_lane@, a.panes@[i].id@),
    ensures
        a.cells_upto(col, k) == b.cells_upto(col, k),
    decreases k,
{
    if k > 0 {
        lemma_cells_same(a, b, col, (k - 1) as nat);
        let ps = a.panes.deep_view();
        assert forall|i: int| 0 <= i < ps.len() implies lane_of_id(a.store.pane_lane@, #[trigger] ps[i].id)
            == lane_of_id(b.store.pane_lane@, ps[i].id) by {
            assert(ps[i].id == a.panes@[i].id@);
        }
        let lane = a.store.lane_order@[k - 1];
        lemma_pane_indices_agree(ps, a.store.pane_lane@, b.store.pane_lane@, State::Working, lane, ps.len());
        lemma_pane_indices_agree(ps, a.store.pane_lane@, b.store.pane_lane@, State::Waiting, lane, ps.len());
    }
}

impl App {
    /// Writes the store: prunes the entries of panes that are gone, then asks
    /// the runner to save it.
    pub fn persist(&mut self)
        ensures
            final(self).store.pane_lane@ == old(self).store.pane_lane@.restrict(
                id_set(old(self).panes.deep_view()),
            ),
            final(self).store.notes@ == old(self).store.notes@.restrict(
                id_set(old(self).panes.deep_view()),
            ),
            final(self).store.lane_names == old(self).store.lane_names,
            final(self).store.lane_order == old(self).store.lane_order,
            final(self).store.prompts == old(self).store.prompts,
            final(self).effects.deep_view() == old(self).effects.deep_view().push(EffectView::Save),
            forall|c: Col| #[trigger] final(self).cells_spec(c) == old(self).cells_spec(c),
            final(self).panes == old(self).panes,
            final(self).since == old(self).since,
            final(self).prev_state == old(self).prev_state,
            final(self).col == old(self).col,
            final(self).row == old(self).row,
            final(self).mode == old(self).mode,
            final(self).status == old(self).status,
            final(self).should_quit == old(self).should_quit,
            final(self).section_cols == old(self).section_cols,
            final(self).clock == old(self).clock,
            old(self).well_formed() ==> final(self).well_formed(),
    {
        let ids = self.live_ids();
        proof {
            let ps = self.panes.deep_view();
            assert(ids.deep_view().len() == ids@.len());
            assert(ids_of(ps).len() == ps.len());
            assert forall|i: int| 0 <= i < ids@.len() implies (#[trigger] ids@[i])@ == ps[i].id by {
                assert(ids.deep_view()[i] == ids@[i]@);
                assert(ids_of(ps)[i] == ps[i].id);
            }
            lemma_live_key_set(ids@, ps);
        }
        self.store.save(ids.as_slice());
        let ghost pre_effects = self.effects.deep_view();
        self.effects.push(Effect::Save);
        assert(self.effects.deep_view() =~= pre_effects.push(EffectView::Save));
        proof {
            let ps = self.panes.deep_view();
            assert forall|i: int| 0 <= i < self.panes@.len() implies lane_of_id(
                self.store.pane_lane@,
                #[trigger] self.panes@[i].id@,
            ) == lane_of_id(old(self).store.pane_lane@, self.panes@[i].id@) by {
                assert(ps[i].id == self.panes@[i].id@);
                lemma_lane_of_restrict(old(self).store.pane_lane@, id_set(ps), self.panes@[i].id@);
            }
            assert forall|c: Col| #[trigger] self.cells_spec(c) == old(self).cells_spec(c) by {
                lemma_cells_same(&*self, &*old(self), c, self.store.lane_order@.len());
            }
        }
    }
}

impl App {
    /// The prompt and pane lists have `usize` lengths.
    fn establish_sized(&self)
        ensures
            self.sized(),
    {
        let _ = self.store.prompts.len();
        let _ = self.panes.len();
    }

    /// The selected card is a card of a lane of the order in the active
    /// column.
    pub proof fn lemma_selected(&self)
        requires
            self.sized(),
        ensures
            self.selected_spec() matches Some(c) ==> self.store.lane_order@.contains(c.0)
                && self.is_item(c.0, self.col, c.1),
    {
        self.lemma_cells(self.col, self.store.lane_order@.len());
        if let Some(c) = self.selected_spec() {
            assert(self.cells_spec(self.col)[self.row as int] == c);
            assert(self.cells_spec(self.col).contains(c));
            let t = choose|t: int| 0 <= t < self.store.lane_order@.len() && self.store.lane_order@[t] == c.0;
            assert(self.store.lane_order@.contains(c.0));
        }
    }

    /// What `assign_lane` does: `self` before, `b` after.
    pub open spec fn assign_lane_post(self, b: App, pos: usize) -> bool {
        &&& self.selected_spec() is None ==> b == self
        &&& self.selected_spec() matches Some(c) ==> {
            let lane = lane_at(self.store.lane_order@, pos);
            let ids = id_set(self.panes.deep_view());
            &&& self.col == Col::Todo ==> {
                &&& b.store.prompts.deep_view() == self.store.prompts.deep_view().update(
                    c.1 as int,
                    PromptView { text: self.store.prompts@[c.1 as int].text@, lane },
                )
                &&& b.store.pane_lane@ == self.store.pane_lane@.restrict(ids)
            }
            &&& self.col != Col::Todo ==> {
                &&& b.store.prompts == self.store.prompts
                &&& b.store.pane_lane@ == self.store.pane_lane@.insert(
                    self.panes@[c.1 as int].id@,
                    lane,
                ).restrict(ids)
            }
            &&& b.store.notes@ == self.store.notes@.restrict(ids)
            &&& b.store.lane_names == self.store.lane_names
            &&& b.store.lane_order == self.store.lane_order
            &&& b.status@ == "→ "@ + lane_label_of(
                lane,
                name_of(self.store.lane_names.deep_view(), lane),
            )
            &&& b.effects.deep_view() == self.effects.deep_view().push(
                EffectView::Save,
            )
            &&& b.row == clamp_row(
                self.row,
                b.cells_spec(b.col).len(),
            )
            &&& b.panes == self.panes
            &&& b.since == self.since
            &&& b.prev_state == self.prev_state
            &&& b.col == self.col
            &&& b.mode == self.mode
            &&& b.should_quit == self.should_quit
            &&& b.section_cols == self.section_cols
            &&& b.clock == self.clock
        }
    }

    /// Sends the selected card to the lane painted at position `pos`: key 1
    /// always leads to the top lane, 2 to the next one, however the lanes
    /// were reordered.
    pub fn assign_lane(&mut self, pos: usize)
        requires
            old(self).selected_spec() is Some ==> lane_at(old(self).store.lane_order@, pos) < usize::MAX,
        ensures
            old(self).assign_lane_post(*final(self), pos),
    {
        let lane = self.store.lane_at_position(pos);
        let i = match self.selected() {
            Some((_, i)) => i,
            None => {
                return;
            },
        };
        self.establish_sized();
        proof {
            self.lemma_selected();
        }
        if self.col == Col::Todo {
            let p = Prompt { text: self.store.prompts[i].text.clone(), lane };
            self.store.prompts.set(i, p);
            assert(self.store.prompts.deep_view() =~= old(self).store.prompts.deep_view().update(
                i as int,
                PromptView { text: old(self).store.prompts@[i as int].text@, lane },
            ));
        } else {
            let id = self.panes[i].id.clone();
            self.store.pane_lane.insert(id, lane);
        }
        let label = self.store.lane_label(lane);
        let mut st = String::from_str("→ ");
        st.append(label.as_str());
        self.status = st;
        self.persist();
        self.clamp();
    }
}

/// Boards with the same store, panes, timers and clock have the same
/// columns.
pub proof fn lemma_same_board(a: &App, b: &App)
    requires
        a.store == b.store,
        a.panes == b.panes,
        a.since == b.since,
        a.clock == b.clock,
    ensures
        forall|c: Col| #[trigger] a.cells_spec(c) == b.cells_spec(c),
{
    assert forall|c: Col| #[trigger] a.cells_spec(c) == b.cells_spec(c) by {
        lemma_cells_same(a, b, c, a.store.lane_order@.len());
    }
}

/// Index of the first occurrence of `x` in `s`.
pub open spec fn first_index_of(s: Seq<(usize, usize)>, x: (usize, usize)) -> Option<nat>
    decreases s.len(),
{
    if s.len() == 0 {
        None
    } else {
        match first_index_of(s.drop_last(), x) {
            Some(i) => Some(i),
            None => if s.last() == x {
                Some((s.len() - 1) as nat)
            } else {
                None
            },
        }
    }
}

proof fn lemma_first_index_found(s: Seq<(usize, usize)>, x: (usize, usize), i: int)
    requires
        0 <= i < s.len(),
        first_index_of(s.take(i), x) is None,
        s[i] == x,
    ensures
        first_index_of(s, x) == Some(i as nat),
    decreases s.len(),
{
    if s.len() - 1 == i {
        assert(s.drop_last() =~= s.take(i));
    } else {
        assert(s.drop_last().take(i) =~= s.take(i));
        lemma_first_index_found(s.drop_last(), x, i);
    }
}

proof fn lemma_first_index_contains(s: Seq<(usize, usize)>, x: (usize, usize))
    ensures
        first_index_of(s, x) matches Some(i) ==> i < s.len() && s[i as int] == x,
        s.contains(x) ==> first_index_of(s, x) is Some,
    decreases s.len(),
{
    if s.len() > 0 {
        lemma_first_index_contains(s.drop_last(), x);
        if s.contains(x) && s.last() != x {
            let j = choose|j: int| 0 <= j < s.len() && s[j] == x;
            assert(s.drop_last()[j] == x);
        }
    }
}

/// See [`first_index_of`].
fn find_cell(cells: &Vec<(usize, usize)>, x: (usize, usize)) -> (r: Option<usize>)
    ensures
        match first_index_of(cells@, x) {
            Some(i) => r == Some(i as usize),
            None => r is None,
        },
        r matches Some(k) ==> k < cells@.len() && cells@[k as int] == x,
{
    let n = cells.len();
    let mut i: usize = 0;
    assert(cells@.take(0) =~= Seq::<(usize, usize)>::empty());
    while i < n
        invariant
            i <= n,
            n == cells@.len(),
            first_index_of(cells@.take(i as int), x) is None,
        decreases n - i,
    {
        assert(cells@.take(i + 1).drop_last() =~= cells@.take(i as int));
        assert(cells@.take(i + 1).last() == cells@[i as int]);
        if cells[i].0 == x.0 && cells[i].1 == x.1 {
            proof {
                lemma_first_index_found(cells@, x, i as int);
            }
            return Some(i);
        }
        i = i + 1;
    }
    assert(cells@.take(n as int) =~= cells@);
    None
}

impl App {
    /// What `move_lane` does: `self` before, `b` after.
    pub open spec fn move_lane_post(self, b: App, down: bool) -> bool {
        &&& self.selected_spec() is None ==> {
            &&& b.status@ == "nothing selected"@
            &&& b.store == self.store
            &&& b.row == self.row
            &&& b.effects == self.effects
        }
        &&& self.selected_spec() matches Some(c) ==> lane_swap(
            self.store.lane_order@,
            c.0,
            down,
        ) is None ==> {
            &&& b.status@ == if down {
                "already the last swimlane"@
            } else {
                "already the first swimlane"@
            }
            &&& b.store == self.store
            &&& b.row == self.row
            &&& b.effects == self.effects
        }
        &&& self.selected_spec() matches Some(c) ==> lane_swap(
            self.store.lane_order@,
            c.0,
            down,
        ) matches Some(o) ==> {
            let ids = id_set(self.panes.deep_view());
            &&& b.store.lane_order@ == o
            &&& b.store.pane_lane@ == self.store.pane_lane@.restrict(ids)
            &&& b.store.notes@ == self.store.notes@.restrict(ids)
            &&& b.store.lane_names == self.store.lane_names
            &&& b.store.prompts == self.store.prompts
            &&& b.selected_spec() == Some(c)
            &&& b.status@ == lane_label_of(
                c.0,
                name_of(self.store.lane_names.deep_view(), c.0),
            ) + " → position "@ + decimal((position_in(o, c.0) + 1) as nat)
            &&& b.effects.deep_view() == self.effects.deep_view().push(
                EffectView::Save,
            )
        }
        &&& b.panes == self.panes
        &&& b.since == self.since
        &&& b.prev_state == self.prev_state
        &&& b.col == self.col
        &&& b.mode == self.mode
        &&& b.should_quit == self.should_quit
        &&& b.section_cols == self.section_cols
        &&& b.clock == self.clock
    }

    /// Moves the lane of the selected card one position up or down with all
    /// its content (name, prompts, panes). The lane's index does not change,
    /// so the number keys keep leading to the same lane. The selection
    /// follows the card.
    pub fn move_lane(&mut self, down: bool)
        requires
            old(self).selected_spec() matches Some(c) ==> c.0 < usize::MAX,
        ensures
            old(self).move_lane_post(*final(self), down),
    {
        let (lane, item) = match self.selected() {
            Some(c) => c,
            None => {
                self.status = String::from_str("nothing selected");
                return;
            },
        };
        self.establish_sized();
        proof {
            self.lemma_selected();
        }
        let _ = self.store.lane_order.len();
        if !self.store.swap_lane(lane, down) {
            self.status = if down {
                String::from_str("already the last swimlane")
            } else {
                String::from_str("already the first swimlane")
            };
            return;
        }
        let ghost o = self.store.lane_order@;
        let ghost oo = old(self).store.lane_order@;
        proof {
            let pos = position_in(oo, lane);
            lemma_position_found(oo, lane);
            let other = if down { pos + 1 } else { pos - 1 };
            assert(o[other as int] == lane);
            assert(o.contains(lane));
            // The card is still on the board, in the same lane.
            self.lemma_cells(self.col, o.len());
            assert forall|i: int| 0 <= i < self.panes@.len() implies lane_of_id(
                self.store.pane_lane@,
                #[trigger] self.panes@[i].id@,
            ) == lane_of_id(old(self).store.pane_lane@, self.panes@[i].id@) by {}
            assert(self.is_item(lane, self.col, item));
            let j = choose|j: int| 0 <= j < o.len() && o[j] == lane;
            assert(self.cells_spec(self.col).contains((lane, item)));
            lemma_first_index_contains(self.cells_spec(self.col), (lane, item));
        }
        let cells = self.column_cells(self.col);
        let ghost before = *self;
        match find_cell(&cells, (lane, item)) {
            Some(row) => {
                self.row = row;
            },
            None => {},
        }
        proof {
            lemma_same_board(&*self, &before);
        }
        assert(self.selected_spec() == Some((lane, item)));
        let ghost mid = *self;
        let label = self.store.lane_label(lane);
        let p = self.store.position_of(lane);
        let _ = self.store.lane_order.len();
        let mut st = label;
        st.append(" → position ");
        push_decimal(&mut st, (p + 1) as u64);
        self.status = st;
        proof {
            lemma_same_board(&*self, &mid);
        }
        self.persist();
    }
}

/// Moving the selected card's lane one way and then back the other way
/// restores the painting order, with the same card selected.
pub proof fn lemma_move_lane_back(a: App, b: App, c: App, down: bool)
    requires
        a.well_formed(),
        a.sized(),
        a.store.lane_order@.len() <= usize::MAX,
        a.move_lane_post(b, down),
        b.move_lane_post(c, !down),
        a.selected_spec() matches Some(s) ==> lane_swap(a.store.lane_order@, s.0, down) is Some,
    ensures
        c.store.lane_order@ == a.store.lane_order@,
        c.selected_spec() == a.selected_spec(),
{
    if let Some(s) = a.selected_spec() {
        a.lemma_selected();
        lemma_swap_back(a.store.lane_order@, s.0, down);
    } else {
        lemma_same_board(&a, &b);
        lemma_same_board(&b, &c);
    }
}

/// `a` and `b` agree on the panes, their timers, the clock and the flags
/// that no action changes.
pub open spec fn same_panes(a: &App, b: &App) -> bool {
    &&& a.panes == b.panes
    &&& a.since == b.since
    &&& a.prev_state == b.prev_state
    &&& a.should_quit == b.should_quit
    &&& a.section_cols == b.section_cols
    &&& a.clock == b.clock
}

/// The lane of the selection, lane 0 when nothing is selected.
pub open spec fn selected_lane(sel: Option<(usize, usize)>) -> usize {
    match sel {
        Some(c) => c.0,
        None => 0,
    }
}

impl App {
    /// What `start_new_prompt` does: `self` before, `b` after.
    pub open spec fn start_new_prompt_post(self, b: App) -> bool {
        &&& b.mode matches Mode::PromptEdit { idx, buf, cur } && idx is None && buf@
            == Seq::<char>::empty() && cur == 0
        &&& same_panes(&b, &self)
        &&& b.store == self.store
        &&& b.col == self.col
        &&& b.row == self.row
        &&& b.status == self.status
        &&& b.effects == self.effects
    }

    /// Opens the editor on a new, empty prompt.
    pub fn start_new_prompt(&mut self)
        ensures
            old(self).start_new_prompt_post(*final(self)),
    {
        self.mode = Mode::PromptEdit { idx: None, buf: String::new(), cur: 0 };
    }

    /// What `start_edit` does: `self` before, `b` after.
    pub open spec fn start_edit_post(self, b: App) -> bool {
        &&& self.selected_spec() is None ==> b == self
        &&& self.selected_spec() matches Some(c) ==> {
            &&& self.col == Col::Todo ==> {
                let text = self.store.prompts@[c.1 as int].text@;
                b.mode matches Mode::PromptEdit { idx, buf, cur } && idx == Some(c.1)
                    && buf@ == text && cur == vstd::utf8::encode_utf8(text).len() as usize
            }
            &&& self.col != Col::Todo ==> {
                let id = self.panes@[c.1 as int].id@;
                let notes = self.store.notes@;
                b.mode matches Mode::NoteEdit { pane, doing, next, field } && pane@
                    == id && field == 0 && (if notes.contains_key(id) {
                    doing@ == notes[id].doing && next@ == notes[id].next
                } else {
                    doing@ == Seq::<char>::empty() && next@ == Seq::<char>::empty()
                })
            }
            &&& same_panes(&b, &self)
            &&& b.store == self.store
            &&& b.col == self.col
            &&& b.row == self.row
            &&& b.status == self.status
            &&& b.effects == self.effects
        }
    }

    /// Edits the selected card: the prompt's text in TODO (cursor at its
    /// end), the pane's note elsewhere.
    pub fn start_edit(&mut self)
        ensures
            old(self).start_edit_post(*final(self)),
    {
        let i = match self.selected() {
            Some((_, i)) => i,
            None => {
                return;
            },
        };
        self.establish_sized();
        proof {
            self.lemma_selected();
        }
        if self.col == Col::Todo {
            let buf = self.store.prompts[i].text.clone();
            let cur = buf.as_str().len();
            self.mode = Mode::PromptEdit { idx: Some(i), buf, cur };
        } else {
            let id = self.panes[i].id.clone();
            let n = match self.store.notes.get(&id) {
                Some(n) => n.duplicate(),
                None => Note::empty(),
            };
            self.mode = Mode::NoteEdit { pane: id, doing: n.doing, next: n.next, field: 0 };
        }
    }

    /// What `commit_prompt` does: `self` before, `b` after.
    pub open spec fn commit_prompt_post(self, b: App, idx: Option<usize>, buf: Seq<char>) -> bool {
        let text = trim_end_chars(buf);
        let ps = self.store.prompts.deep_view();
        let ids = id_set(self.panes.deep_view());
        &&& b.store.prompts.deep_view() == if is_blank(buf) {
            match idx {
                Some(i) => ps.remove(i as int),
                None => ps,
            }
        } else {
            match idx {
                Some(i) => ps.update(i as int, PromptView { text, lane: ps[i as int].lane }),
                None => ps.push(
                    PromptView { text, lane: selected_lane(self.selected_spec()) },
                ),
            }
        }
        &&& b.status@ == if is_blank(buf) && idx is Some {
            "prompt deleted"@
        } else if !is_blank(buf) && idx is None {
            "prompt saved"@
        } else {
            self.status@
        }
        &&& b.mode is Board
        &&& b.store.pane_lane@ == self.store.pane_lane@.restrict(ids)
        &&& b.store.notes@ == self.store.notes@.restrict(ids)
        &&& b.store.lane_names == self.store.lane_names
        &&& b.store.lane_order == self.store.lane_order
        &&& b.effects.deep_view() == self.effects.deep_view().push(
            EffectView::Save,
        )
        &&& b.row == clamp_row(
            self.row,
            b.cells_spec(b.col).len(),
        )
        &&& b.col == self.col
        &&& same_panes(&b, &self)
    }

    /// Saves the prompt editor's text. A blank prompt adds nothing; when it
    /// was an edit, the prompt is deleted. A new prompt goes to the lane of
    /// the selection (lane 0 when nothing is selected).
    pub fn commit_prompt(&mut self, idx: Option<usize>, buf: String)
        requires
            idx matches Some(i) ==> i < old(self).store.prompts@.len(),
        ensures
            old(self).commit_prompt_post(*final(self), idx, buf@),
    {
        let text = trim_end(buf.as_str());
        proof {
            lemma_trim_empty_iff_blank(buf@);
        }
        let empty = blank(text.as_str());
        assert(empty == is_blank(buf@)) by {
            lemma_trim_end_blank(buf@);
        }
        let ghost ps = self.store.prompts.deep_view();
        if empty {
            match idx {
                Some(i) => {
                    let _ = self.store.prompts.remove(i);
                    assert(self.store.prompts.deep_view() =~= ps.remove(i as int));
                    self.status = String::from_str("prompt deleted");
                },
                None => {},
            }
        } else {
            match idx {
                Some(i) => {
                    let lane = self.store.prompts[i].lane;
                    self.store.prompts.set(i, Prompt { text, lane });
                    assert(self.store.prompts.deep_view() =~= ps.update(
                        i as int,
                        PromptView { text: trim_end_chars(buf@), lane },
                    ));
                },
                None => {
                    let lane = match self.selected() {
                        Some((l, _)) => l,
                        None => 0,
                    };
                    self.store.prompts.push(Prompt { text, lane });
                    assert(self.store.prompts.deep_view() =~= ps.push(
                        PromptView { text: trim_end_chars(buf@), lane },
                    ));
                    self.status = String::from_str("prompt saved");
                },
            }
        }
        self.mode = Mode::Board;
        self.persist();
        self.clamp();
    }

    /// What `commit_note` does: `self` before, `b` after.
    pub open spec fn commit_note_post(self, b: App, pane: Seq<char>, doing: Seq<char>, next: Seq<char>) -> bool {
        let ids = id_set(self.panes.deep_view());
        let notes = if is_blank(doing) && is_blank(next) {
            self.store.notes@.remove(pane)
        } else {
            self.store.notes@.insert(
                pane,
                NoteView {
                    doing: trim_chars(doing),
                    next: trim_chars(next),
                    touched: self.clock,
                },
            )
        };
        &&& b.store.notes@ == notes.restrict(ids)
        &&& b.store.pane_lane@ == self.store.pane_lane@.restrict(ids)
        &&& b.store.prompts == self.store.prompts
        &&& b.store.lane_names == self.store.lane_names
        &&& b.store.lane_order == self.store.lane_order
        &&& b.mode is Board
        &&& b.status@ == "note saved"@
        &&& b.effects.deep_view() == self.effects.deep_view().push(
            EffectView::Save,
        )
        &&& b.row == self.row
        &&& b.col == self.col
        &&& same_panes(&b, &self)
    }

    /// Saves the note editor's fields, trimmed, touched now. When both are
    /// blank the note is removed.
    pub fn commit_note(&mut self, pane: String, doing: String, next: String)
        ensures
            old(self).commit_note_post(*final(self), pane@, doing@, next@),
    {
        if blank(doing.as_str()) && blank(next.as_str()) {
            self.store.notes.remove(&pane);
        } else {
            let n = Note { doing: trim(doing.as_str()), next: trim(next.as_str()), touched: self.clock };
            self.store.notes.insert(pane, n);
        }
        self.mode = Mode::Board;
        self.status = String::from_str("note saved");
        self.persist();
    }

    /// What `delete_selected` does: `self` before, `b` after.
    pub open spec fn delete_selected_post(self, b: App) -> bool {
        &&& self.selected_spec() is None ==> b == self
        &&& self.selected_spec() matches Some(c) ==> self.col != Col::Todo ==> {
            &&& b.status@ == "only TODO prompts can be deleted"@
            &&& b.store == self.store
            &&& b.row == self.row
            &&& b.mode == self.mode
            &&& b.effects == self.effects
            &&& b.col == self.col
            &&& same_panes(&b, &self)
        }
        &&& self.selected_spec() matches Some(c) ==> self.col == Col::Todo ==> {
            let ids = id_set(self.panes.deep_view());
            &&& b.store.prompts.deep_view() == self.store.prompts.deep_view().remove(
                c.1 as int,
            )
            &&& b.status@ == "prompt deleted"@
            &&& b.store.pane_lane@ == self.store.pane_lane@.restrict(ids)
            &&& b.store.notes@ == self.store.notes@.restrict(ids)
            &&& b.store.lane_names == self.store.lane_names
            &&& b.store.lane_order == self.store.lane_order
            &&& b.effects.deep_view() == self.effects.deep_view().push(
                EffectView::Save,
            )
            &&& b.row == clamp_row(
                self.row,
                b.cells_spec(b.col).len(),
            )
            &&& b.mode == self.mode
            &&& b.col == self.col
            &&& same_panes(&b, &self)
        }
    }

    /// Deletes the selected prompt; only TODO prompts can be deleted.
    pub fn delete_selected(&mut self)
        ensures
            old(self).delete_selected_post(*final(self)),
    {
        let i = match self.selected() {
            Some((_, i)) => i,
            None => {
                return;
            },
        };
        self.establish_sized();
        proof {
            self.lemma_selected();
        }
        if self.col == Col::Todo {
            let ghost ps = self.store.prompts.deep_view();
            let _ = self.store.prompts.remove(i);
            assert(self.store.prompts.deep_view() =~= ps.remove(i as int));
            self.status = String::from_str("prompt deleted");
            self.persist();
            self.clamp();
        } else {
            self.status = String::from_str("only TODO prompts can be deleted");
        }
    }

    /// What `copy_selected` does: `self` before, `b` after.
    pub open spec fn copy_selected_post(self, b: App) -> bool {
        &&& self.selected_spec() is None ==> b == self
        &&& self.selected_spec() matches Some(c) ==> {
            &&& self.col == Col::Todo ==> {
                &&& b.effects.deep_view() == self.effects.deep_view().push(
                    EffectView::Copy(self.store.prompts@[c.1 as int].text@),
                )
                &&& b.status@ == "copied (OSC52 + tmux buffer: prefix+])"@
            }
            &&& self.col != Col::Todo ==> {
                &&& b.effects == self.effects
                &&& b.status@ == "nothing to copy here"@
            }
            &&& b.store == self.store
            &&& b.row == self.row
            &&& b.mode == self.mode
            &&& b.col == self.col
            &&& same_panes(&b, &self)
        }
    }

    /// Copies the selected prompt to the clipboard (OSC52 and the tmux
    /// buffer); only prompts can be copied.
    pub fn copy_selected(&mut self)
        ensures
            old(self).copy_selected_post(*final(self)),
    {
        let i = match self.selected() {
            Some((_, i)) => i,
            None => {
                return;
            },
        };
        self.establish_sized();
        proof {
            self.lemma_selected();
        }
        if self.col == Col::Todo {
            let text = self.store.prompts[i].text.clone();
            let ghost pre = self.effects.deep_view();
            self.effects.push(Effect::Copy { text });
            assert(self.effects.deep_view() =~= pre.push(
                EffectView::Copy(old(self).store.prompts@[i as int].text@),
            ));
            self.status = String::from_str("copied (OSC52 + tmux buffer: prefix+])");
        } else {
            self.status = String::from_str("nothing to copy here");
        }
    }

    /// What `focus_selected` does: `self` before, `b` after.
    pub open spec fn focus_selected_post(self, b: App) -> bool {
        &&& self.selected_spec() is None ==> b == self
        &&& self.selected_spec() matches Some(c) ==> {
            &&& self.col == Col::Todo ==> {
                &&& b.effects == self.effects
                &&& b.status@ == "[s] sends the prompt to a pane"@
            }
            &&& self.col != Col::Todo ==> {
                &&& b.effects.deep_view() == self.effects.deep_view().push(
                    EffectView::Focus(self.panes@[c.1 as int].id@),
                )
                &&& b.status@ == "→ "@ + self.panes@[c.1 as int].loc@
            }
            &&& b.store == self.store
            &&& b.row == self.row
            &&& b.mode == self.mode
            &&& b.col == self.col
            &&& same_panes(&b, &self)
        }
    }

    /// Jumps to the selected pane; on a prompt, tells how to send it.
    pub fn focus_selected(&mut self)
        ensures
            old(self).focus_selected_post(*final(self)),
    {
        let i = match self.selected() {
            Some((_, i)) => i,
            None => {
                return;
            },
        };
        self.establish_sized();
        proof {
            self.lemma_selected();
        }
        if self.col == Col::Todo {
            self.status = String::from_str("[s] sends the prompt to a pane");
        } else {
            let pane = self.panes[i].id.clone();
            let ghost pre = self.effects.deep_view();
            self.effects.push(Effect::Focus { pane });
            assert(self.effects.deep_view() =~= pre.push(
                EffectView::Focus(old(self).panes@[i as int].id@),
            ));
            let mut st = String::from_str("→ ");
            st.append(self.panes[i].loc.as_str());
            self.status = st;
        }
    }

    /// What `start_rename` does: `self` before, `b` after.
    pub open spec fn start_rename_post(self, b: App) -> bool {
        &&& ({
            let lane = selected_lane(self.selected_spec());
            b.mode matches Mode::LaneRename { lane: l, buf } && l == lane && buf@
                == self.store.lane_names@[lane as int]@
        })
        &&& b.store == self.store
        &&& b.row == self.row
        &&& b.col == self.col
        &&& b.status == self.status
        &&& b.effects == self.effects
        &&& same_panes(&b, &self)
    }

    /// Opens the rename editor on the lane of the selection (lane 0 when
    /// nothing is selected), holding its current name.
    pub fn start_rename(&mut self)
        requires
            selected_lane(old(self).selected_spec()) < old(self).store.lane_names@.len(),
        ensures
            old(self).start_rename_post(*final(self)),
    {
        let lane = match self.selected() {
            Some((l, _)) => l,
            None => 0,
        };
        let buf = self.store.lane_names[lane].clone();
        self.mode = Mode::LaneRename { lane, buf };
    }

    /// What `commit_rename` does: `self` before, `b` after.
    pub open spec fn commit_rename_post(self, b: App, lane: usize, buf: Seq<char>) -> bool {
        let ids = id_set(self.panes.deep_view());
        &&& b.store.lane_names.deep_view() == self.store.lane_names.deep_view().update(
            lane as int,
            trim_chars(buf),
        )
        &&& b.store.pane_lane@ == self.store.pane_lane@.restrict(ids)
        &&& b.store.notes@ == self.store.notes@.restrict(ids)
        &&& b.store.prompts == self.store.prompts
        &&& b.store.lane_order == self.store.lane_order
        &&& b.mode is Board
        &&& b.status@ == "swimlane renamed"@
        &&& b.effects.deep_view() == self.effects.deep_view().push(
            EffectView::Save,
        )
        &&& b.row == self.row
        &&& b.col == self.col
        &&& same_panes(&b, &self)
    }

    /// Renames a lane to the trimmed text.
    pub fn commit_rename(&mut self, lane: usize, buf: String)
        requires
            lane < old(self).store.lane_names@.len(),
        ensures
            old(self).commit_rename_post(*final(self), lane, buf@),
    {
        let ghost names = self.store.lane_names.deep_view();
        let t = trim(buf.as_str());
        self.store.lane_names.set(lane, t);
        assert(self.store.lane_names.deep_view() =~= names.update(lane as int, trim_chars(buf@)));
        self.mode = Mode::Board;
        self.status = String::from_str("swimlane renamed");
        self.persist();
    }
}

/// Pairs of strings as plain values.
pub open spec fn pairs_view(v: Seq<(String, String)>) -> Seq<(Seq<char>, Seq<char>)> {
    Seq::new(v.len(), |k: int| (v[k].0@, v[k].1@))
}

impl App {
    /// Rank of pane `i` as a target for a prompt of `lane`: panes of the same
    /// lane first, and within each group those waiting before those working
    /// (a larger key comes first).
    pub open spec fn send_key(&self, lane: usize, i: int) -> u64 {
        let other = lane_of_id(self.store.pane_lane@, self.panes@[i].id@) != lane;
        let busy = self.panes@[i].state == State::Working;
        (3 - (if other {
            2int
        } else {
            0int
        }) - (if busy {
            1int
        } else {
            0int
        })) as u64
    }

    /// The ranks of all panes for a prompt of `lane`.
    pub open spec fn send_keys(&self, lane: usize) -> Seq<u64> {
        Seq::new(self.panes@.len(), |i: int| self.send_key(lane, i))
    }

    /// Pane indices in the order they are offered for a prompt of `lane`.
    pub open spec fn send_order(&self, lane: usize) -> Seq<usize> {
        sort_desc(lanes_upto(self.panes@.len()), self.send_keys(lane))
    }

    /// The line that offers pane `i` for a prompt of `lane`: a mark for the
    /// same lane, its location, window and title, and whether it works or
    /// waits.
    pub open spec fn target_label(&self, lane: usize, i: int) -> Seq<char> {
        let p = self.panes@[i];
        let mark = if lane_of_id(self.store.pane_lane@, p.id@) == lane {
            "▸ "@
        } else {
            "  "@
        };
        let st = if p.state == State::Working {
            "working"@
        } else {
            "waiting for you"@
        };
        mark + p.loc@ + "  "@ + p.window@ + "  "@ + p.title@ + " · "@ + st
    }

    /// The targets offered for a prompt of `lane`: (pane id, label).
    pub open spec fn send_targets(&self, lane: usize) -> Seq<(Seq<char>, Seq<char>)> {
        let o = self.send_order(lane);
        Seq::new(o.len(), |k: int| (self.panes@[o[k] as int].id@, self.target_label(lane, o[k] as int)))
    }

    fn send_label(&self, lane: usize, i: usize) -> (r: String)
        requires
            i < self.panes@.len(),
        ensures
            r@ == self.target_label(lane, i as int),
    {
        let p = &self.panes[i];
        let mut r = if self.store.lane_of(p.id.as_str()) == lane {
            String::from_str("▸ ")
        } else {
            String::from_str("  ")
        };
        r.append(p.loc.as_str());
        r.append("  ");
        r.append(p.window.as_str());
        r.append("  ");
        r.append(p.title.as_str());
        r.append(" · ");
        if p.state == State::Working {
            r.append("working");
        } else {
            r.append("waiting for you");
        }
        r
    }

    /// What `start_send` does: `self` before, `b` after.
    pub open spec fn start_send_post(self, b: App) -> bool {
        &&& self.selected_spec() is None ==> b == self
        &&& self.selected_spec() matches Some(c) ==> {
            &&& self.col != Col::Todo ==> b.status@ == "only TODO prompts can be sent"@
                && b.mode == self.mode
            &&& self.col == Col::Todo && self.panes@.len() == 0 ==> b.status@
                == "no agent panes to send to"@ && b.mode == self.mode
            &&& self.col == Col::Todo && self.panes@.len() > 0 ==> {
                let lane = self.store.prompts@[c.1 as int].lane;
                &&& b.mode matches Mode::SendConfirm { prompt_idx, targets, sel }
                    && prompt_idx == c.1 && sel == 0 && pairs_view(targets@)
                    == self.send_targets(lane)
                &&& b.status == self.status
            }
            &&& b.store == self.store
            &&& b.row == self.row
            &&& b.col == self.col
            &&& b.effects == self.effects
            &&& same_panes(&b, &self)
        }
    }

    /// Prepares sending the selected prompt: lists the agent panes as
    /// targets to choose from and confirm, those of the prompt's lane first
    /// (marked) and, within each group, those waiting before those working.
    pub fn start_send(&mut self)
        ensures
            old(self).start_send_post(*final(self)),
    {
        let i = match self.selected() {
            Some((_, i)) => i,
            None => {
                return;
            },
        };
        self.establish_sized();
        proof {
            self.lemma_selected();
        }
        if self.col != Col::Todo {
            self.status = String::from_str("only TODO prompts can be sent");
            return;
        }
        if self.panes.len() == 0 {
            self.status = String::from_str("no agent panes to send to");
            return;
        }
        let lane = self.store.prompts[i].lane;
        let n = self.panes.len();
        let mut all: Vec<usize> = Vec::new();
        let mut keys: Vec<u64> = Vec::new();
        let mut k: usize = 0;
        while k < n
            invariant
                k <= n,
                n == self.panes@.len(),
                all@ == lanes_upto(k as nat),
                keys@.len() == k,
                forall|j: int| 0 <= j < k ==> #[trigger] keys@[j] == self.send_key(lane, j),
            decreases n - k,
        {
            let other = self.store.lane_of(self.panes[k].id.as_str()) != lane;
            let busy = self.panes[k].state == State::Working;
            let key: u64 = 3 - (if other {
                2
            } else {
                0
            }) - (if busy {
                1
            } else {
                0
            });
            all.push(k);
            keys.push(key);
            k = k + 1;
            assert(all@ =~= lanes_upto(k as nat));
        }
        assert(keys@ =~= self.send_keys(lane));
        let order = sort_by_key_desc(&all, &keys);
        proof {
            lemma_sort_desc_elems(all@, keys@);
            assert forall|j: int| 0 <= j < order@.len() implies #[trigger] order@[j] < n by {
                assert(order@.contains(order@[j]));
                assert(all@.contains(order@[j]));
            }
        }
        let m = order.len();
        let mut targets: Vec<(String, String)> = Vec::new();
        let mut j: usize = 0;
        while j < m
            invariant
                j <= m,
                m == order@.len(),
                n == self.panes@.len(),
                order@ == self.send_order(lane),
                forall|t: int| 0 <= t < order@.len() ==> #[trigger] order@[t] < n,
                targets@.len() == j,
                forall|t: int|
                    0 <= t < j ==> (#[trigger] targets@[t]).0@ == self.panes@[order@[t] as int].id@
                        && targets@[t].1@ == self.target_label(lane, order@[t] as int),
            decreases m - j,
        {
            let p = order[j];
            let label = self.send_label(lane, p);
            targets.push((self.panes[p].id.clone(), label));
            j = j + 1;
        }
        assert(pairs_view(targets@) =~= self.send_targets(lane));
        self.mode = Mode::SendConfirm { prompt_idx: i, targets, sel: 0 };
    }
}

/// The offered targets come in rank order: panes of the prompt's lane
/// before the others, and within each group waiting panes before working
/// ones; equal ranks keep the order tmux lists them in.
pub proof fn lemma_send_order(a: &App, lane: usize)
    requires
        a.sized(),
    ensures
        ordered_desc(a.send_order(lane), a.send_keys(lane)),
{
    let s = lanes_upto(a.panes@.len());
    assert forall|i: int, j: int| 0 <= i < j < s.len() implies s[i] < s[j] by {}
    lemma_sort_desc_ordered(s, a.send_keys(lane));
}

/// What a sent prompt leaves as the pane's "doing" note: its first line,
/// cut to 80 characters.
pub open spec fn note_line(text: Seq<char>) -> Seq<char> {
    let ls = lines_of(text);
    let l = if ls.len() > 0 {
        ls[0]
    } else {
        Seq::<char>::empty()
    };
    if l.len() > 80 {
        l.take(80)
    } else {
        l
    }
}

/// `d` is the start of the first line of `text`: a prefix of `text`, at
/// most 80 characters, holding no line break, and shorter than 80 only
/// where the first line ends (at the end of `text`, a `\n` or a `\r\n`).
pub open spec fn starts_first_line(d: Seq<char>, text: Seq<char>) -> bool {
    &&& d.len() <= 80
    &&& d.len() <= text.len()
    &&& d == text.take(d.len() as int)
    &&& forall|k: int| 0 <= k < d.len() ==> d[k] != '\n'
    &&& d.len() < 80 ==> (d.len() == text.len() || text[d.len() as int] == '\n' || (text[d.len() as int]
        == '\r' && d.len() + 1 < text.len() && text[d.len() + 1int] == '\n'))
}

/// The note line of a prompt is the start of its first line.
pub proof fn lemma_note_line(text: Seq<char>)
    ensures
        starts_first_line(note_line(text), text),
{
    lemma_first_piece(text, '\n');
    let p = split_on(text, '\n');
    let f = p[0];
    let ls = lines_of(text);
    let ended = text.len() > 0 && text.last() == '\n';
    let l = if ls.len() > 0 {
        ls[0]
    } else {
        Seq::<char>::empty()
    };
    if text.len() == 0 {
        assert(l.len() == 0);
    } else {
        if ended {
            lemma_first_piece(text.drop_last(), '\n');
            assert(p.len() >= 2);
        }
        let stripped = p.len() > 1;
        if stripped {
            assert(l == strip_cr(f));
            assert(f.len() < text.len() && text[f.len() as int] == '\n');
            if f.len() > 0 && f.last() == '\r' {
                assert(l == f.drop_last());
                assert(f[f.len() - 1] == text[f.len() - 1]);
                assert(l =~= text.take(l.len() as int));
            }
        } else {
            assert(!ended);
            assert(l == f);
        }
    }
    let d = note_line(text);
    if l.len() > 80 {
        assert(d =~= text.take(80));
    }
}

/// After a send, the pane's note tells what it is doing with the start of
/// the prompt's first line, and keeps what was expected next.
pub proof fn lemma_sent_note(a: App, b: App, idx: usize, id: Seq<char>)
    requires
        a.do_send_post(b, idx, id),
        id_set(a.panes.deep_view()).contains(id),
    ensures
        b.store.notes@.contains_key(id),
        starts_first_line(b.store.notes@[id].doing, a.store.prompts@[idx as int].text@),
        b.store.notes@[id].next == if a.store.notes@.contains_key(id) {
            a.store.notes@[id].next
        } else {
            Seq::<char>::empty()
        },
{
    lemma_note_line(a.store.prompts@[idx as int].text@);
}

/// See [`note_line`].
fn first_line(text: &str) -> (r: String)
    ensures
        r@ == note_line(text@),
{
    let ls = lines(text);
    assert(ls.deep_view().len() == ls@.len());
    let l = if ls.len() > 0 {
        assert(ls.deep_view()[0] == ls@[0]@);
        ls[0].clone()
    } else {
        String::new()
    };
    let n = l.as_str().unicode_len();
    if n > 80 {
        let cut = l.as_str().substring_char(0, 80).to_owned();
        assert(cut@ =~= l@.take(80));
        cut
    } else {
        l
    }
}

impl App {
    /// What `do_send` does: `self` before, `b` after.
    pub open spec fn do_send_post(self, b: App, prompt_idx: usize, pane_id: Seq<char>) -> bool {
        let text = self.store.prompts@[prompt_idx as int].text@;
        let id = pane_id;
        let notes = self.store.notes@;
        let note = NoteView {
            doing: note_line(text),
            next: if notes.contains_key(id) {
                notes[id].next
            } else {
                Seq::<char>::empty()
            },
            touched: self.clock,
        };
        let ids = id_set(self.panes.deep_view());
        &&& b.store.notes@ == notes.insert(id, note).restrict(ids)
        &&& b.store.prompts.deep_view() == self.store.prompts.deep_view().remove(
            prompt_idx as int,
        )
        &&& b.store.pane_lane@ == self.store.pane_lane@.restrict(ids)
        &&& b.store.lane_names == self.store.lane_names
        &&& b.store.lane_order == self.store.lane_order
        &&& b.mode is Board
        &&& b.status@ == "typed into the pane — press Enter there to run it"@
        &&& b.effects.deep_view() == self.effects.deep_view().push(
            EffectView::Type(id, text),
        ).push(EffectView::Save).push(EffectView::Focus(id))
        &&& b.row == clamp_row(
            self.row,
            b.cells_spec(b.col).len(),
        )
        &&& b.col == self.col
        &&& same_panes(&b, &self)
    }

    /// Types the prompt into the pane WITHOUT pressing Enter (the user
    /// reviews it there and launches it), then jumps there. The prompt leaves
    /// TODO: its first line becomes the pane's "doing" note.
    pub fn do_send(&mut self, prompt_idx: usize, pane_id: String)
        requires
            prompt_idx < old(self).store.prompts@.len(),
        ensures
            old(self).do_send_post(*final(self), prompt_idx, pane_id@),
    {
        let text = self.store.prompts[prompt_idx].text.clone();
        let ghost e0 = self.effects.deep_view();
        self.effects.push(Effect::Type { pane: pane_id.clone(), text: text.clone() });
        assert(self.effects.deep_view() =~= e0.push(EffectView::Type(pane_id@, text@)));
        let mut n = match self.store.notes.get(&pane_id) {
            Some(n) => n.duplicate(),
            None => Note::empty(),
        };
        n.doing = first_line(text.as_str());
        n.touched = self.clock;
        self.store.notes.insert(pane_id.clone(), n);
        let ghost ps = self.store.prompts.deep_view();
        let _ = self.store.prompts.remove(prompt_idx);
        assert(self.store.prompts.deep_view() =~= ps.remove(prompt_idx as int));
        self.mode = Mode::Board;
        self.status = String::from_str("typed into the pane — press Enter there to run it");
        self.persist();
        self.clamp();
        let ghost mid = *self;
        let ghost e1 = self.effects.deep_view();
        self.effects.push(Effect::Focus { pane: pane_id });
        assert(self.effects.deep_view() =~= e1.push(EffectView::Focus(pane_id@)));
        proof {
            lemma_same_board(&*self, &mid);
        }
    }
}

/// Timers and last states after observing the first `k` panes at time `t`:
/// a pane seen in a new state (or for the first time) starts its timer at
/// `t`; one still in the same state keeps it.
pub open spec fn timers_after(
    since: Map<Seq<char>, u64>,
    prev: Map<Seq<char>, State>,
    ps: Seq<PaneView>,
    t: u64,
    k: nat,
) -> (Map<Seq<char>, u64>, Map<Seq<char>, State>)
    decreases k,
{
    if k == 0 {
        (since, prev)
    } else {
        let (s, p) = timers_after(since, prev, ps, t, (k - 1) as nat);
        let q = ps[k - 1];
        let s2 = if p.contains_key(q.id) && p[q.id] == q.state {
            s
        } else {
            s.insert(q.id, t)
        };
        (s2, p.insert(q.id, q.state))
    }
}

impl App {
    /// Takes in the panes that tmux lists now and updates the time counters
    /// per state.
    ///
    /// Times cannot be recovered backwards (tmux does not keep since when a
    /// pane has its title), so they count from when the board first sees a
    /// pane in its state: at start everything begins at 0. Entries of panes
    /// that are gone are dropped.
    pub fn refresh(&mut self, panes: Vec<Pane>)
        ensures
            ({
                let ps = panes.deep_view();
                let (s, p) = timers_after(
                    old(self).since@,
                    old(self).prev_state@,
                    ps,
                    old(self).clock,
                    ps.len(),
                );
                &&& final(self).panes == panes
                &&& final(self).since@ == s.restrict(id_set(ps))
                &&& final(self).prev_state@ == p.restrict(id_set(ps))
                &&& final(self).row == clamp_row(
                    old(self).row,
                    final(self).cells_spec(final(self).col).len(),
                )
            }),
            final(self).store == old(self).store,
            final(self).col == old(self).col,
            final(self).mode == old(self).mode,
            final(self).status == old(self).status,
            final(self).effects == old(self).effects,
            final(self).should_quit == old(self).should_quit,
            final(self).section_cols == old(self).section_cols,
            final(self).clock == old(self).clock,
            old(self).well_formed() ==> final(self).well_formed(),
    {
        let t = self.clock;
        let mut since: StrMap<u64> = StrMap::new();
        std::mem::swap(&mut since, &mut self.since);
        let mut prev: StrMap<State> = StrMap::new();
        std::mem::swap(&mut prev, &mut self.prev_state);
        let ghost ps = panes.deep_view();
        let n = panes.len();
        let mut seen: Vec<String> = Vec::new();
        let mut i: usize = 0;
        while i < n
            invariant
                i <= n,
                n == panes@.len(),
                ps == panes.deep_view(),
                t == old(self).clock,
                (since@, prev@) == timers_after(old(self).since@, old(self).prev_state@, ps, t, i as nat),
                seen@.len() == i,
                forall|j: int| 0 <= j < i ==> (#[trigger] seen@[j])@ == ps[j].id,
            decreases n - i,
        {
            assert(ps[i as int] == panes@[i as int]@);
            let id = panes[i].id.clone();
            let state = panes[i].state;
            seen.push(id.clone());
            let keep = match prev.get(&id) {
                Some(o) => *o == state,
                None => false,
            };
            if !keep {
                since.insert(id.clone(), t);
            }
            prev.insert(id, state);
            i = i + 1;
        }
        proof {
            lemma_live_key_set(seen@, ps);
        }
        since.retain_keys(seen.as_slice());
        prev.retain_keys(seen.as_slice());
        self.since = since;
        self.prev_state = prev;
        self.panes = panes;
        self.clamp();
    }
}

/// Timer of a pane observed in state `st` at time `t`: the one it had when
/// it was last seen in that same state, `t` otherwise.
pub open spec fn next_timer(
    since: Map<Seq<char>, u64>,
    prev: Map<Seq<char>, State>,
    id: Seq<char>,
    st: State,
    t: u64,
) -> u64 {
    if prev.contains_key(id) && prev[id] == st {
        since[id]
    } else {
        t
    }
}

proof fn lemma_timers_step(
    since: Map<Seq<char>, u64>,
    prev: Map<Seq<char>, State>,
    ps: Seq<PaneView>,
    t: u64,
    k: nat,
)
    requires
        k <= ps.len(),
        forall|i: int, j: int| 0 <= i < j < ps.len() ==> ps[i].id != ps[j].id,
        forall|id: Seq<char>| prev.contains_key(id) ==> #[trigger] since.contains_key(id),
    ensures
        ({
            let (s, p) = timers_after(since, prev, ps, t, k);
            &&& forall|i: int|
                #![trigger ps[i]]
                0 <= i < k ==> p.contains_key(ps[i].id) && p[ps[i].id] == ps[i].state
                    && s.contains_key(ps[i].id) && s[ps[i].id] == next_timer(
                    since,
                    prev,
                    ps[i].id,
                    ps[i].state,
                    t,
                )
            &&& forall|id: Seq<char>|
                #![trigger p.contains_key(id)]
                (forall|i: int| 0 <= i < k ==> ps[i].id != id) ==> (p.contains_key(id)
                    == prev.contains_key(id) && (prev.contains_key(id) ==> p[id] == prev[id])
                    && s.contains_key(id) == since.contains_key(id) && (since.contains_key(id)
                    ==> s[id] == since[id]))
        }),
    decreases k,
{
    if k > 0 {
        lemma_timers_step(since, prev, ps, t, (k - 1) as nat);
        let (s0, p0) = timers_after(since, prev, ps, t, (k - 1) as nat);
        let q = ps[k - 1];
        assert forall|i: int| 0 <= i < k - 1 implies ps[i].id != q.id by {}
        assert(p0.contains_key(q.id) == prev.contains_key(q.id));
        let (s, p) = timers_after(since, prev, ps, t, k);
        assert forall|id: Seq<char>| #![trigger p.contains_key(id)] (forall|i: int| 0 <= i < k
            ==> ps[i].id != id) implies (p.contains_key(id) == prev.contains_key(id) && (
        prev.contains_key(id) ==> p[id] == prev[id]) && s.contains_key(id) == since.contains_key(id)
            && (since.contains_key(id) ==> s[id] == since[id])) by {
            assert(ps[k - 1].id != id);
            assert(forall|i: int| 0 <= i < k - 1 ==> ps[i].id != id);
            assert(p0.contains_key(id) == prev.contains_key(id));
        }
    }
}

/// What one refresh leaves of the timers, for panes with distinct ids: every
/// live pane has its last state and a timer, which is the one it already had
/// if it was last seen in the same state and restarts at `t` otherwise;
/// panes that are gone keep nothing.
pub proof fn lemma_refresh_timers(
    since: Map<Seq<char>, u64>,
    prev: Map<Seq<char>, State>,
    ps: Seq<PaneView>,
    t: u64,
)
    requires
        forall|i: int, j: int| 0 <= i < j < ps.len() ==> ps[i].id != ps[j].id,
        forall|id: Seq<char>| prev.contains_key(id) ==> #[trigger] since.contains_key(id),
    ensures
        ({
            let (s, p) = timers_after(since, prev, ps, t, ps.len());
            let live = id_set(ps);
            &&& s.restrict(live).dom() == live
            &&& p.restrict(live).dom() == live
            &&& forall|i: int|
                #![trigger ps[i]]
                0 <= i < ps.len() ==> p.restrict(live)[ps[i].id] == ps[i].state && s.restrict(
                    live,
                )[ps[i].id] == next_timer(since, prev, ps[i].id, ps[i].state, t)
        }),
{
    lemma_timers_step(since, prev, ps, t, ps.len());
    let (s, p) = timers_after(since, prev, ps, t, ps.len());
    let live = id_set(ps);
    assert forall|id: Seq<char>| #[trigger] s.restrict(live).dom().contains(id) == live.contains(id) by {
        if live.contains(id) {
            let i = choose|i: int| 0 <= i < ps.len() && ps[i].id == id;
            assert(s.contains_key(ps[i].id));
        }
    }
    assert forall|id: Seq<char>| #[trigger] p.restrict(live).dom().contains(id) == live.contains(id) by {
        if live.contains(id) {
            let i = choose|i: int| 0 <= i < ps.len() && ps[i].id == id;
            assert(p.contains_key(ps[i].id));
        }
    }
    assert(s.restrict(live).dom() =~= live);
    assert(p.restrict(live).dom() =~= live);
    assert forall|i: int| #![trigger ps[i]] 0 <= i < ps.len() implies live.contains(ps[i].id) by {}
}

proof fn lemma_pane_indices_increasing(
    ps: Seq<PaneView>,
    pane_lane: Map<Seq<char>, usize>,
    want: State,
    lane: usize,
    n: nat,
)
    requires
        n <= ps.len(),
        n <= usize::MAX,
    ensures
        forall|i: int, j: int|
            0 <= i < j < pane_indices(ps, pane_lane, want, lane, n).len() ==> pane_indices(
                ps,
                pane_lane,
                want,
                lane,
                n,
            )[i] < pane_indices(ps, pane_lane, want, lane, n)[j],
        forall|i: int|
            0 <= i < pane_indices(ps, pane_lane, want, lane, n).len() ==> #[trigger] pane_indices(
                ps,
                pane_lane,
                want,
                lane,
                n,
            )[i] < n,
    decreases n,
{
    if n > 0 {
        lemma_pane_indices_increasing(ps, pane_lane, want, lane, (n - 1) as nat);
        let r = pane_indices(ps, pane_lane, want, lane, (n - 1) as nat);
        let q = pane_indices(ps, pane_lane, want, lane, n);
        assert forall|i: int| 0 <= i < q.len() implies #[trigger] q[i] < n by {
            if i < r.len() {
                assert(q[i] == r[i]);
            }
        }
        assert forall|i: int, j: int| 0 <= i < j < q.len() implies q[i] < q[j] by {
            assert(q[i] == r[i]);
            if j < r.len() {
                assert(q[j] == r[j]);
            } else {
                assert(r[i] < n - 1);
            }
        }
    }
}

/// The panes of a lane in a column come longest in their state first; equal
/// times keep the order tmux lists the panes in.
pub proof fn lemma_panes_in_ordered(a: &App, lane: usize, col: Col)
    requires
        a.sized(),
    ensures
        ordered_desc(
            a.panes_in_spec(lane, col),
            pane_keys(a.panes.deep_view(), a.since@, a.clock),
        ),
{
    let ps = a.panes.deep_view();
    let keys = pane_keys(ps, a.since@, a.clock);
    if col != Col::Todo {
        let want = if col == Col::InProgress {
            State::Working
        } else {
            State::Waiting
        };
        lemma_pane_indices_increasing(ps, a.store.pane_lane@, want, lane, ps.len());
        lemma_sort_desc_ordered(pane_indices(ps, a.store.pane_lane@, want, lane, ps.len()), keys);
    }
}

proof fn lemma_prompt_indices_increasing(ps: Seq<PromptView>, lane: usize, n: nat)
    requires
        n <= ps.len(),
        n <= usize::MAX,
    ensures
        forall|i: int, j: int|
            0 <= i < j < prompt_indices(ps, lane, n).len() ==> prompt_indices(ps, lane, n)[i]
                < prompt_indices(ps, lane, n)[j],
        forall|i: int| 0 <= i < prompt_indices(ps, lane, n).len() ==> #[trigger] prompt_indices(ps, lane, n)[i] < n,
    decreases n,
{
    if n > 0 {
        lemma_prompt_indices_increasing(ps, lane, (n - 1) as nat);
        let r = prompt_indices(ps, lane, (n - 1) as nat);
        let q = prompt_indices(ps, lane, n);
        assert forall|i: int| 0 <= i < q.len() implies #[trigger] q[i] < n by {
            if i < r.len() {
                assert(q[i] == r[i]);
            }
        }
        assert forall|i: int, j: int| 0 <= i < j < q.len() implies q[i] < q[j] by {
            assert(q[i] == r[i]);
            if j < r.len() {
                assert(q[j] == r[j]);
            } else {
                assert(r[i] < n - 1);
            }
        }
    }
}

/// The cards of a lane in a column hold no repeat.
proof fn lemma_items_distinct(a: &App, lane: usize, col: Col)
    requires
        a.sized(),
    ensures
        forall|i: int, j: int|
            0 <= i < j < a.items_spec(lane, col).len() ==> a.items_spec(lane, col)[i] != a.items_spec(lane, col)[j],
{
    if col == Col::Todo {
        lemma_prompt_indices_increasing(a.store.prompts.deep_view(), lane, a.store.prompts@.len());
    } else {
        lemma_panes_in_ordered(a, lane, col);
    }
}

/// Every card of a column appears in it exactly once: a pair `(lane, i)` is
/// a cell exactly when card `i` is of `lane` and `lane` is painted, and no
/// two cells hold the same card. This holds when the painting order repeats
/// no lane, as a valid store's order does.
pub proof fn lemma_cells_once(a: &App, col: Col, k: nat)
    requires
        a.sized(),
        a.store.lane_order@.no_duplicates(),
        k <= a.store.lane_order@.len(),
    ensures
        forall|c: (usize, usize)|
            #[trigger] a.cells_upto(col, k).contains(c) <==> (exists|t: int|
                0 <= t < k && a.store.lane_order@[t] == c.0) && a.is_item(c.0, col, c.1),
        forall|i: int, j: int|
            0 <= i < j < a.cells_upto(col, k).len() ==> a.cells_upto(col, k)[i].1 != a.cells_upto(col, k)[j].1,
    decreases k,
{
    a.lemma_cells(col, k);
    if k > 0 {
        lemma_cells_once(a, col, (k - 1) as nat);
        let lane = a.store.lane_order@[k - 1];
        a.lemma_items(lane, col);
        lemma_items_distinct(a, lane, col);
        let prev = a.cells_upto(col, (k - 1) as nat);
        let items = a.items_spec(lane, col);
        let add = tag_lane(lane, items);
        let all = a.cells_upto(col, k);
        assert(all == prev + add);
        assert forall|i: int, j: int| 0 <= i < j < all.len() implies all[i].1 != all[j].1 by {
            if j < prev.len() {
                assert(all[i] == prev[i] && all[j] == prev[j]);
            } else if i >= prev.len() {
                assert(all[i] == add[i - prev.len()] && all[j] == add[j - prev.len()]);
            } else {
                let c = prev[i];
                assert(all[i] == c);
                assert(prev.contains(c));
                let t = choose|t: int| 0 <= t < k - 1 && a.store.lane_order@[t] == c.0;
                let x = items[j - prev.len()];
                assert(all[j] == (lane, x));
                assert(items.contains(x));
                if c.1 == x {
                    assert(a.is_item(c.0, col, x));
                    assert(a.is_item(lane, col, x));
                    assert(c.0 == lane);
                    assert(a.store.lane_order@[t] == a.store.lane_order@[k - 1]);
                }
            }
        }
    }
}

/// The cells of a sub-column are cells of `g` in that sub-column, in the
/// order of `g`, and every such cell of `g` is there.
proof fn lemma_sub_column(g: Seq<Cell>, s: usize)
    requires
        forall|i: int, j: int| 0 <= i < j < g.len() ==> g[i].row < g[j].row,
    ensures
        forall|i: int|
            0 <= i < sub_column(g, s).len() ==> (#[trigger] sub_column(g, s)[i]).subcol == s && g.contains(
                sub_column(g, s)[i],
            ),
        forall|i: int, j: int|
            0 <= i < j < sub_column(g, s).len() ==> sub_column(g, s)[i].row < sub_column(g, s)[j].row,
        forall|j: int| 0 <= j < g.len() && g[j].subcol == s ==> sub_column(g, s).contains(#[trigger] g[j]),
    decreases g.len(),
{
    if g.len() > 0 {
        let p = g.drop_last();
        assert forall|i: int, j: int| 0 <= i < j < p.len() implies p[i].row < p[j].row by {
            assert(p[i] == g[i] && p[j] == g[j]);
        }
        lemma_sub_column(p, s);
        let r = sub_column(p, s);
        let q = sub_column(g, s);
        assert forall|i: int| 0 <= i < r.len() implies #[trigger] r[i].row < g.last().row by {
            let j = choose|j: int| 0 <= j < p.len() && p[j] == r[i];
            assert(g[j] == r[i]);
        }
        assert forall|i: int| 0 <= i < q.len() implies (#[trigger] q[i]).subcol == s && g.contains(q[i]) by {
            if i < r.len() {
                assert(q[i] == r[i]);
                let j = choose|j: int| 0 <= j < p.len() && p[j] == r[i];
                assert(g[j] == q[i]);
            } else {
                assert(q[i] == g[g.len() - 1]);
            }
        }
        assert forall|i: int, j: int| 0 <= i < j < q.len() implies q[i].row < q[j].row by {
            assert(q[i] == r[i]);
            if j < r.len() {
                assert(q[j] == r[j]);
            }
        }
        assert forall|j: int| 0 <= j < g.len() && g[j].subcol == s implies q.contains(#[trigger] g[j]) by {
            if j < g.len() - 1 {
                assert(p[j] == g[j]);
                assert(r.contains(p[j]));
                let t = choose|t: int| 0 <= t < r.len() && r[t] == p[j];
                assert(q[t] == g[j]);
            } else {
                assert(q[q.len() - 1] == g[j]);
            }
        }
    }
}

proof fn lemma_row_index_none(c: Seq<Cell>, row: usize)
    requires
        forall|i: int| 0 <= i < c.len() ==> (#[trigger] c[i]).row != row,
    ensures
        row_index(c, row) is None,
    decreases c.len(),
{
    if c.len() > 0 {
        let p = c.drop_last();
        assert forall|i: int| 0 <= i < p.len() implies (#[trigger] p[i]).row != row by {
            assert(p[i] == c[i]);
        }
        lemma_row_index_none(p, row);
        assert(c[c.len() - 1].row != row);
    }
}

/// In cells with increasing rows, a cell's row is found at its index.
proof fn lemma_row_index_at(c: Seq<Cell>, p: int)
    requires
        0 <= p < c.len(),
        forall|i: int, j: int| 0 <= i < j < c.len() ==> c[i].row < c[j].row,
    ensures
        row_index(c, c[p].row) == Some(p as nat),
{
    let t = c.take(p);
    assert forall|i: int| 0 <= i < t.len() implies (#[trigger] t[i]).row != c[p].row by {
        assert(t[i] == c[i]);
    }
    lemma_row_index_none(t, c[p].row);
    lemma_row_index_found(c, c[p].row, p);
}

/// Boards that differ at most in the selection, the mode, the status or the
/// effects have the same geometry.
proof fn lemma_grid_same(a: &App, b: &App, k: nat)
    requires
        a.store == b.store,
        a.panes == b.panes,
        a.since == b.since,
        a.clock == b.clock,
        a.col == b.col,
        a.section_cols == b.section_cols,
    ensures
        a.grid_upto(k) == b.grid_upto(k),
    decreases k,
{
    if k > 0 {
        lemma_grid_same(a, b, (k - 1) as nat);
    }
}

/// Moving `d` cards up or down and then `d` cards back returns to the same
/// card.
pub proof fn lemma_move_row_back(a: App, b: App, c: App, d: i32)
    requires
        d > i32::MIN,
        a.grid_spec().len() <= usize::MAX,
        a.move_row_post(b, d),
        b.move_row_post(c, (-d) as i32),
    ensures
        c.row == a.row,
{
    let n = a.store.lane_order@.len();
    lemma_grid_same(&a, &b, n);
    lemma_grid_same(&b, &c, n);
    let g = a.grid_spec();
    a.lemma_grid_rows(n);
    assert forall|i: int, j: int| 0 <= i < j < g.len() implies g[i].row < g[j].row by {}
    if a.row < g.len() {
        let cur = g[a.row as int];
        let column = sub_column(g, cur.subcol);
        lemma_sub_column(g, cur.subcol);
        assert(column.contains(g[a.row as int]));
        let p = choose|p: int| 0 <= p < column.len() && column[p] == g[a.row as int];
        lemma_row_index_at(column, p);
        let len = column.len() as int;
        let p2 = (p + d) % len;
        assert(0 <= p2 < len);
        assert(b.row == column[p2].row);
        assert(g.contains(column[p2]));
        let j = choose|j: int| 0 <= j < g.len() && g[j] == column[p2];
        assert(b.row == j);
        assert(b.cur_cell() == Some(g[j]));
        lemma_row_index_at(column, p2);
        let q = (p + d) / len;
        vstd::arithmetic::div_mod::lemma_fundamental_div_mod(p + d, len);
        assert(len * (-q) == -(len * q)) by (nonlinear_arith);
        assert(p2 + (-d) == len * (-q) + p);
        vstd::arithmetic::div_mod::lemma_mod_multiples_vanish(-q, p, len);
        vstd::arithmetic::div_mod::lemma_small_mod(p as nat, len as nat);
        assert((p2 + (-d)) % len == p);
        assert(c.row == column[p].row);
    }
}

/// Clamping keeps a row that is inside the column, and otherwise brings it
/// to the last card, or to 0 on an empty column.
pub proof fn lemma_clamp_row(row: usize, n: nat)
    requires
        n <= usize::MAX,
    ensures
        n == 0 ==> clamp_row(row, n) == 0,
        n > 0 ==> clamp_row(row, n) < n,
        row < n ==> clamp_row(row, n) == row,
        row >= n > 0 ==> clamp_row(row, n) == n - 1,
{
}

/// Deleting the selected prompt keeps the selection in place, or on the
/// last card when it fell past the end of the column (row 0 when the column
/// is left empty).
pub proof fn lemma_delete_keeps_place(a: App, b: App)
    requires
        a.delete_selected_post(b),
        a.col == Col::Todo,
        a.selected_spec() is Some,
    ensures
        ({
            let n = b.cells_spec(b.col).len();
            &&& n == 0 ==> b.row == 0
            &&& a.row < n ==> b.row == a.row
            &&& a.row >= n > 0 ==> b.row == n - 1
        }),
{
}

} // verus!

//! State that survives between runs: swimlanes, prompts and per-pane notes.
//!
//! Notes and lane assignments are keyed by the tmux pane id (`%17`), not by
//! its position (`0:2.1`), so that they follow the pane when windows are
//! reordered. Closing a pane orphans its entries; they are dropped on save.

use vstd::prelude::*;
use crate::strmap::{StrMap, key_set};
use crate::text::{blank, decimal, is_blank, push_decimal, push_char, digit};

verus! {

/// Number of swimlanes.
pub const N_LANES: usize = 6;

/// A prompt not launched yet (a card of the TODO column).
#[derive(Debug, PartialEq, Eq)]
pub struct Prompt {
    pub text: String,
    pub lane: usize,
}

/// What a prompt is, as plain values.
pub struct PromptView {
    pub text: Seq<char>,
    pub lane: usize,
}

impl View for Prompt {
    type V = PromptView;

    open spec fn view(&self) -> PromptView {
        PromptView { text: self.text@, lane: self.lane }
    }
}

impl DeepView for Prompt {
    type V = PromptView;

    open spec fn deep_view(&self) -> PromptView {
        self@
    }
}

/// The user's note on a pane.
#[derive(Debug, PartialEq, Eq)]
pub struct Note {
    /// What I am doing.
    pub doing: String,
    /// What I expect next.
    pub next: String,
    /// Epoch seconds of the last edit, to flag stale notes.
    pub touched: u64,
}

/// What a note is, as plain values.
pub struct NoteView {
    pub doing: Seq<char>,
    pub next: Seq<char>,
    pub touched: u64,
}

impl View for Note {
    type V = NoteView;

    open spec fn view(&self) -> NoteView {
        NoteView { doing: self.doing@, next: self.next@, touched: self.touched }
    }
}

impl Note {
    /// The note with both fields empty, touched at time 0 (`Note::default`).
    pub fn empty() -> (n: Note)
        ensures
            n@ == (NoteView { doing: Seq::empty(), next: Seq::empty(), touched: 0 }),
    {
        Note { doing: String::new(), next: String::new(), touched: 0 }
    }

    /// A copy of the note.
    pub fn duplicate(&self) -> (n: Note)
        ensures
            n@ == self@,
    {
        Note { doing: self.doing.clone(), next: self.next.clone(), touched: self.touched }
    }
}

/// The persistent board.
pub struct Store {
    /// Names of the lanes; empty = unnamed.
    pub lane_names: Vec<String>,
    /// Painting order: position -> lane index.
    ///
    /// Identity and position are kept apart on purpose: the lane index is what
    /// `pane_lane` and the prompts record, so reordering only changes where a
    /// lane is drawn, never which lane a card is in. The number keys go by
    /// position: key 1 leads to the lane painted first.
    pub lane_order: Vec<usize>,
    pub prompts: Vec<Prompt>,
    /// pane id -> lane
    pub pane_lane: StrMap<usize>,
    /// pane id -> note
    pub notes: StrMap<Note>,
}

/// `N_LANES` empty names.
pub open spec fn unnamed_lanes() -> Seq<Seq<char>> {
    Seq::new(N_LANES as nat, |i: int| Seq::<char>::empty())
}

/// `0, 1, .., n - 1`.
pub open spec fn lanes_upto(n: nat) -> Seq<usize> {
    Seq::new(n, |i: int| i as usize)
}

/// `s` is an order of all the lanes: each of `0..N_LANES` exactly once.
pub open spec fn is_lane_order(s: Seq<usize>) -> bool {
    &&& s.no_duplicates()
    &&& forall|i: int| 0 <= i < s.len() ==> #[trigger] s[i] < N_LANES
    &&& forall|k: usize| k < N_LANES ==> #[trigger] s.contains(k)
}

/// `i` is the first position of `x` in `s`.
pub open spec fn first_at(s: Seq<usize>, x: usize, i: int) -> bool {
    &&& 0 <= i < s.len()
    &&& s[i] == x
    &&& forall|j: int| 0 <= j < i ==> s[j] != x
}

/// Painting position of `lane` under `order`: its first position, or the lane
/// index itself when the order does not hold it.
pub open spec fn position_in(order: Seq<usize>, lane: usize) -> usize {
    if order.contains(lane) {
        (choose|i: int| first_at(order, lane, i)) as usize
    } else {
        lane
    }
}

/// The lane painted at position `pos`, or `pos` itself past the end.
pub open spec fn lane_at(order: Seq<usize>, pos: usize) -> usize {
    if pos < order.len() {
        order[pos as int]
    } else {
        pos
    }
}

/// The first position is unique.
pub proof fn lemma_first_at_unique(s: Seq<usize>, x: usize, i: int)
    requires
        first_at(s, x, i),
        s.len() <= usize::MAX,
    ensures
        s.contains(x),
        position_in(s, x) == i,
{
    assert(s[i] == x);
    let c = choose|c: int| first_at(s, x, c);
    assert(first_at(s, x, c));
    if c < i {
        assert(s[c] != x);
    }
    if i < c {
        assert(s[i] != x);
    }
}

/// A value that occurs has a first occurrence.
pub proof fn lemma_first_occurrence(s: Seq<usize>, x: usize) -> (i: int)
    requires
        s.contains(x),
    ensures
        first_at(s, x, i),
    decreases s.len(),
{
    let p = s.drop_last();
    if p.contains(x) {
        let j = choose|j: int| 0 <= j < p.len() && p[j] == x;
        assert(s[j] == x);
        let i = lemma_first_occurrence(p, x);
        assert forall|k: int| 0 <= k < i implies s[k] != x by {
            assert(s[k] == p[k]);
        }
        i
    } else {
        let j = choose|j: int| 0 <= j < s.len() && s[j] == x;
        assert forall|k: int| 0 <= k < s.len() - 1 implies s[k] != x by {
            assert(s[k] == p[k]);
        }
        if j < s.len() - 1 {
            assert(p[j] == x);
        }
        (s.len() - 1) as int
    }
}

/// The position of a lane that the order holds is where it is.
pub proof fn lemma_position_found(s: Seq<usize>, x: usize)
    requires
        s.contains(x),
        s.len() <= usize::MAX,
    ensures
        position_in(s, x) < s.len(),
        s[position_in(s, x) as int] == x,
{
    let i = lemma_first_occurrence(s, x);
    lemma_first_at_unique(s, x, i);
}

/// Lane of a pane: the one it was assigned to, 0 otherwise.
pub open spec fn lane_of_id(pane_lane: Map<Seq<char>, usize>, id: Seq<char>) -> usize {
    if pane_lane.contains_key(id) {
        pane_lane[id]
    } else {
        0
    }
}

/// The valid entries of `order` (below `N_LANES`), each at its first
/// occurrence, in order.
pub open spec fn valid_lanes(order: Seq<usize>) -> Seq<usize>
    decreases order.len(),
{
    if order.len() == 0 {
        Seq::empty()
    } else {
        let r = valid_lanes(order.drop_last());
        let x = order.last();
        if x < N_LANES && !r.contains(x) {
            r.push(x)
        } else {
            r
        }
    }
}

/// The lanes below `n` that `kept` lacks, in increasing order.
pub open spec fn missing_lanes(kept: Seq<usize>, n: nat) -> Seq<usize>
    decreases n,
{
    if n == 0 {
        Seq::empty()
    } else {
        let r = missing_lanes(kept, (n - 1) as nat);
        if kept.contains((n - 1) as usize) {
            r
        } else {
            r.push((n - 1) as usize)
        }
    }
}

/// `order` repaired: its valid entries in their order, then the missing
/// lanes.
pub open spec fn fixed_order(order: Seq<usize>) -> Seq<usize> {
    valid_lanes(order) + missing_lanes(valid_lanes(order), N_LANES as nat)
}

/// The order after moving `lane` one position down (`down`) or up, swapping
/// it with its neighbour; `None` when it is already at that end.
pub open spec fn lane_swap(order: Seq<usize>, lane: usize, down: bool) -> Option<Seq<usize>> {
    let pos = position_in(order, lane) as int;
    let other = if down { pos + 1 } else { pos - 1 };
    if (down && pos + 1 < order.len()) || (!down && pos > 0) {
        Some(order.update(pos, order[other]).update(other, order[pos]))
    } else {
        None
    }
}

/// Label of lane `i` when its name is `name`.
pub open spec fn lane_label_of(i: usize, name: Seq<char>) -> Seq<char> {
    if is_blank(name) {
        decimal((i + 1) as nat) + " · (sin nombre)"@
    } else {
        decimal((i + 1) as nat) + " · "@ + upper_case(name)
    }
}

/// The name of lane `i`, empty past the end of `names`.
pub open spec fn name_of(names: Seq<Seq<char>>, i: usize) -> Seq<char> {
    if i < names.len() {
        names[i as int]
    } else {
        Seq::empty()
    }
}

/// Upper-case form of a string, as `str::to_uppercase` computes it.
pub uninterp spec fn upper_case(s: Seq<char>) -> Seq<char>;

/// Upper-case form of `s`: calls `str::to_uppercase`, whose result depends on
/// `s` alone (Unicode case mapping); the contract names it `upper_case`.
#[verifier::external_body]
fn to_upper(s: &str) -> (r: String)
    ensures
        r@ == upper_case(s@),
{
    s.to_uppercase()
}

/// The default lane order, `0..N_LANES`.
pub fn default_order() -> (r: Vec<usize>)
    ensures
        r@ == lanes_upto(N_LANES as nat),
{
    let mut r: Vec<usize> = Vec::new();
    let mut i: usize = 0;
    while i < N_LANES
        invariant
            i <= N_LANES,
            r@ == lanes_upto(i as nat),
        decreases N_LANES - i,
    {
        r.push(i);
        i = i + 1;
        assert(r@ =~= lanes_upto(i as nat));
    }
    r
}

impl Default for Store {
    /// Six unnamed lanes in their natural order, no prompts, no pane data.
    fn default() -> (s: Store)
        ensures
            s.lane_names.deep_view() == unnamed_lanes(),
            s.lane_order@ == lanes_upto(N_LANES as nat),
            s.prompts@.len() == 0,
            s.pane_lane@ == Map::<Seq<char>, usize>::empty(),
            s.notes@ == Map::<Seq<char>, NoteView>::empty(),
    {
        Store::fresh()
    }
}

impl Store {
    /// Six unnamed lanes in their natural order, no prompts, no pane data.
    fn fresh() -> (s: Store)
        ensures
            s.lane_names.deep_view() == unnamed_lanes(),
            s.lane_order@ == lanes_upto(N_LANES as nat),
            s.prompts@.len() == 0,
            s.pane_lane@ == Map::<Seq<char>, usize>::empty(),
            s.notes@ == Map::<Seq<char>, NoteView>::empty(),
    {
        let mut names: Vec<String> = Vec::new();
        let mut i: usize = 0;
        while i < N_LANES
            invariant
                i <= N_LANES,
                names@.len() == i,
                forall|j: int| 0 <= j < i ==> (#[trigger] names@[j])@ == Seq::<char>::empty(),
            decreases N_LANES - i,
        {
            names.push(String::new());
            i = i + 1;
        }
        assert(names.deep_view() =~= unnamed_lanes());
        Store {
            lane_names: names,
            lane_order: default_order(),
            prompts: Vec::new(),
            pane_lane: StrMap::new(),
            notes: StrMap::new(),
        }
    }
}

impl Store {
    /// The lanes are whole: the painting order holds every lane exactly
    /// once, and there is one name per lane.
    pub open spec fn valid(&self) -> bool {
        &&& is_lane_order(self.lane_order@)
        &&& self.lane_names@.len() == N_LANES
    }

    /// Whether the lanes are whole (see `valid`).
    pub fn is_valid(&self) -> (r: bool)
        ensures
            r == self.valid(),
    {
        if self.lane_names.len() != N_LANES {
            return false;
        }
        let ghost o = self.lane_order@;
        let mut seen: Vec<bool> = Vec::new();
        while seen.len() < N_LANES
            invariant
                seen@.len() <= N_LANES,
                forall|k: int| 0 <= k < seen@.len() ==> !seen@[k],
            decreases N_LANES - seen@.len(),
        {
            seen.push(false);
        }
        let n = self.lane_order.len();
        let mut i: usize = 0;
        while i < n
            invariant
                i <= n,
                n == o.len(),
                o == self.lane_order@,
                seen@.len() == N_LANES,
                forall|j: int| 0 <= j < i ==> #[trigger] o[j] < N_LANES,
                forall|j: int, k: int| 0 <= j < k < i ==> o[j] != o[k],
                forall|x: int| 0 <= x < N_LANES ==> (#[trigger] seen@[x] <==> exists|j: int| 0 <= j < i && o[j] == x),
            decreases n - i,
        {
            let x = self.lane_order[i];
            if x >= N_LANES {
                return false;
            }
            if seen[x] {
                let ghost j = choose|j: int| 0 <= j < i && o[j] == x;
                assert(o[j] == o[i as int]);
                return false;
            }
            seen.set(x, true);
            i = i + 1;
        }
        let mut k: usize = 0;
        while k < N_LANES
            invariant
                k <= N_LANES,
                n == o.len(),
                o == self.lane_order@,
                seen@.len() == N_LANES,
                forall|j: int| 0 <= j < n ==> #[trigger] o[j] < N_LANES,
                forall|j: int, m: int| 0 <= j < m < n ==> o[j] != o[m],
                forall|x: int| 0 <= x < N_LANES ==> (#[trigger] seen@[x] <==> exists|j: int| 0 <= j < n && o[j] == x),
                forall|x: usize| x < k ==> #[trigger] o.contains(x),
            decreases N_LANES - k,
        {
            if !seen[k] {
                assert(!o.contains(k)) by {
                    if o.contains(k) {
                        let j = choose|j: int| 0 <= j < o.len() && o[j] == k;
                        assert(seen@[k as int]);
                    }
                }
                return false;
            }
            assert(o.contains(k));
            k = k + 1;
        }
        assert(o.no_duplicates());
        true
    }

    /// Lane of a pane: the one it was assigned to, 0 if none.
    pub fn lane_of(&self, pane_id: &str) -> (r: usize)
        ensures
            r == lane_of_id(self.pane_lane@, pane_id@),
    {
        let key = pane_id.to_owned();
        match self.pane_lane.get(&key) {
            Some(l) => *l,
            None => 0,
        }
    }

    /// Painting position of a lane.
    pub fn position_of(&self, lane: usize) -> (r: usize)
        ensures
            r == position_in(self.lane_order@, lane),
            self.lane_order@.contains(lane) ==> r < self.lane_order@.len() && self.lane_order@[r as int] == lane,
    {
        let n = self.lane_order.len();
        let mut i: usize = 0;
        while i < n
            invariant
                i <= n,
                n == self.lane_order@.len(),
                forall|j: int| 0 <= j < i ==> self.lane_order@[j] != lane,
            decreases n - i,
        {
            if self.lane_order[i] == lane {
                proof {
                    lemma_first_at_unique(self.lane_order@, lane, i as int);
                }
                return i;
            }
            i = i + 1;
        }
        lane
    }

    /// The lane painted at position `pos` (number key `pos + 1`); past the
    /// end of the order, lane `pos` itself.
    pub fn lane_at_position(&self, pos: usize) -> (r: usize)
        ensures
            r == lane_at(self.lane_order@, pos),
    {
        if pos < self.lane_order.len() {
            self.lane_order[pos]
        } else {
            pos
        }
    }

    /// Swaps a lane with its neighbour in the painting order; `down` moves it
    /// one position down. Returns false, changing nothing, when it is already
    /// at that end.
    pub fn swap_lane(&mut self, lane: usize, down: bool) -> (moved: bool)
        requires
            !old(self).lane_order@.contains(lane) ==> if down {
                lane < usize::MAX
            } else {
                lane == 0 || lane < old(self).lane_order@.len()
            },
        ensures
            moved == lane_swap(old(self).lane_order@, lane, down) is Some,
            !moved ==> *final(self) == *old(self),
            final(self).lane_order@ == match lane_swap(old(self).lane_order@, lane, down) {
                Some(o) => o,
                None => old(self).lane_order@,
            },
            final(self).lane_names == old(self).lane_names,
            final(self).prompts == old(self).prompts,
            final(self).pane_lane == old(self).pane_lane,
            final(self).notes == old(self).notes,
    {
        let pos = self.position_of(lane);
        let len = self.lane_order.len();
        let other = if down {
            if pos >= len || len - pos < 2 {
                return false;
            }
            pos + 1
        } else {
            if pos == 0 {
                return false;
            }
            pos - 1
        };
        let a = self.lane_order[pos];
        let b = self.lane_order[other];
        self.lane_order.set(pos, b);
        self.lane_order.set(other, a);
        true
    }

    /// Makes `lane_order` a valid order of `0..N_LANES`.
    ///
    /// A hand-edited file or one from another version could hold duplicates,
    /// out-of-range or missing indices; lanes would then be lost when drawing.
    /// The valid entries keep their order and the missing lanes are appended.
    pub fn fix_order(&mut self)
        ensures
            final(self).lane_order@ == fixed_order(old(self).lane_order@),
            final(self).lane_names == old(self).lane_names,
            final(self).prompts == old(self).prompts,
            final(self).pane_lane == old(self).pane_lane,
            final(self).notes == old(self).notes,
    {
        let ghost order = self.lane_order@;
        let mut seen: Vec<bool> = Vec::new();
        let mut k: usize = 0;
        while k < N_LANES
            invariant
                k <= N_LANES,
                seen@.len() == k,
                forall|j: int| 0 <= j < k ==> !(#[trigger] seen@[j]),
            decreases N_LANES - k,
        {
            seen.push(false);
            k = k + 1;
        }
        let mut clean: Vec<usize> = Vec::new();
        let n = self.lane_order.len();
        let mut i: usize = 0;
        assert(order.take(0) =~= Seq::<usize>::empty());
        while i < n
            invariant
                i <= n,
                n == order.len(),
                order == self.lane_order@,
                seen@.len() == N_LANES,
                clean@ == valid_lanes(order.take(i as int)),
                forall|j: int| 0 <= j < N_LANES ==> (#[trigger] seen@[j] <==> clean@.contains(j as usize)),
            decreases n - i,
        {
            let x = self.lane_order[i];
            assert(order.take(i + 1).drop_last() =~= order.take(i as int));
            assert(order.take(i + 1).last() == x);
            if x < N_LANES && !seen[x] {
                let ghost pre_seen = seen@;
                let ghost pre_clean = clean@;
                seen.set(x, true);
                clean.push(x);
                proof {
                    assert forall|j: int| 0 <= j < N_LANES implies (#[trigger] seen@[j]
                        <==> clean@.contains(j as usize)) by {
                        if j != x {
                            assert(seen@[j] == pre_seen[j]);
                            assert(pre_seen[j] <==> pre_clean.contains(j as usize));
                            if clean@.contains(j as usize) {
                                let t = choose|t: int| 0 <= t < clean@.len() && clean@[t] == j as usize;
                                assert(t < clean@.len() - 1);
                                assert(pre_clean[t] == j as usize);
                            }
                            if pre_clean.contains(j as usize) {
                                let t = choose|t: int| 0 <= t < pre_clean.len() && pre_clean[t] == j as usize;
                                assert(clean@[t] == j as usize);
                            }
                        } else {
                            assert(clean@[clean@.len() - 1] == x);
                        }
                    }
                }
            } else {
                proof {
                    if x < N_LANES {
                        assert(seen@[x as int]);
                    }
                }
            }
            i = i + 1;
        }
        assert(order.take(n as int) =~= order);
        let ghost kept = clean@;
        let mut m: usize = 0;
        while m < N_LANES
            invariant
                m <= N_LANES,
                seen@.len() == N_LANES,
                forall|j: int| 0 <= j < N_LANES ==> (#[trigger] seen@[j] <==> kept.contains(j as usize)),
                clean@ == kept + missing_lanes(kept, m as nat),
            decreases N_LANES - m,
        {
            if !seen[m] {
                clean.push(m);
                assert(clean@ =~= kept + missing_lanes(kept, (m + 1) as nat));
            } else {
                assert(kept.contains(m));
            }
            m = m + 1;
        }
        self.lane_order = clean;
    }

    /// Drops the entries of panes that are gone (not in `live_ids`); this is
    /// what the store keeps before it is written out.
    pub fn save(&mut self, live_ids: &[String])
        ensures
            final(self).pane_lane@ == old(self).pane_lane@.restrict(key_set(live_ids@)),
            final(self).notes@ == old(self).notes@.restrict(key_set(live_ids@)),
            final(self).lane_names == old(self).lane_names,
            final(self).lane_order == old(self).lane_order,
            final(self).prompts == old(self).prompts,
    {
        self.pane_lane.retain_keys(live_ids);
        self.notes.retain_keys(live_ids);
    }

    /// Label of lane `i`: its number, then its name in upper case, or
    /// "(sin nombre)" when the name is blank.
    pub fn lane_label(&self, i: usize) -> (r: String)
        requires
            i < usize::MAX,
        ensures
            r@ == lane_label_of(i, name_of(self.lane_names.deep_view(), i)),
    {
        let mut r = String::new();
        push_decimal(&mut r, (i + 1) as u64);
        let empty = String::new();
        let n: &str = if i < self.lane_names.len() {
            self.lane_names[i].as_str()
        } else {
            empty.as_str()
        };
        assert(n@ == name_of(self.lane_names.deep_view(), i));
        if blank(n) {
            r.append(" · (sin nombre)");
        } else {
            r.append(" · ");
            let u = to_upper(n);
            r.append(u.as_str());
        }
        r
    }

    /// The store read back from disk: `saved` is what the state file held
    /// (`None` when it could not be read or parsed). The names are brought
    /// to `N_LANES` entries, in case the file comes from a version with
    /// another number of lanes, and the order is repaired.
    pub fn load(saved: Option<Store>) -> (r: Store)
        ensures
            saved is None ==> {
                &&& r.lane_names.deep_view() == unnamed_lanes()
                &&& r.lane_order@ == lanes_upto(N_LANES as nat)
                &&& r.prompts@.len() == 0
                &&& r.pane_lane@ == Map::<Seq<char>, usize>::empty()
                &&& r.notes@ == Map::<Seq<char>, NoteView>::empty()
            },
            saved matches Some(st) ==> {
                &&& r.lane_names.deep_view() == resized_names(st.lane_names.deep_view())
                &&& r.lane_order@ == fixed_order(st.lane_order@)
                &&& r.prompts == st.prompts
                &&& r.pane_lane == st.pane_lane
                &&& r.notes == st.notes
            },
            r.valid(),
    {
        proof {
            lemma_natural_order();
            if saved is Some {
                lemma_fixed_order_is_lane_order(saved->0.lane_order@);
            }
        }
        match saved {
            None => {
                let st = Store::fresh();
                assert(st.lane_names.deep_view().len() == st.lane_names@.len());
                st
            },
            Some(mut st) => {
                let ghost names = st.lane_names.deep_view();
                st.lane_names.truncate(N_LANES);
                while st.lane_names.len() < N_LANES
                    invariant
                        st.lane_names@.len() <= N_LANES,
                        forall|j: int|
                            0 <= j < st.lane_names@.len() ==> (#[trigger] st.lane_names@[j])@ == (
                            if j < names.len() {
                                names[j]
                            } else {
                                Seq::<char>::empty()
                            }),
                        names.len() < N_LANES ==> st.lane_names@.len() >= names.len(),
                        names.len() >= N_LANES ==> st.lane_names@.len() == N_LANES,
                        saved matches Some(o) && st.lane_order == o.lane_order && st.prompts
                            == o.prompts && st.pane_lane == o.pane_lane && st.notes == o.notes,
                    decreases N_LANES - st.lane_names@.len(),
                {
                    let ghost pre = st.lane_names@;
                    st.lane_names.push(String::new());
                    assert(forall|j: int| 0 <= j < pre.len() ==> st.lane_names@[j] == pre[j]);
                }
                assert(st.lane_names.deep_view() =~= resized_names(names));
                st.fix_order();
                st
            },
        }
    }
}

/// `names` brought to `N_LANES` entries: cut, or padded with empty names.
pub open spec fn resized_names(names: Seq<Seq<char>>) -> Seq<Seq<char>> {
    Seq::new(
        N_LANES as nat,
        |i: int|
            if i < names.len() {
                names[i]
            } else {
                Seq::<char>::empty()
            },
    )
}

/// Seconds since the Unix epoch, as the system clock (`SystemTime::now`)
/// tells it; 0 when the clock is set before the epoch. Nothing is promised of
/// the value: the clock can be set to anything.
#[verifier::external_body]
pub fn now() -> u64 {
    std::time::SystemTime::now().duration_since(std::time::UNIX_EPOCH).map(|d| d.as_secs()).unwrap_or(0)
}

/// `n` on two digits, zero-padded (`{:02}`).
pub open spec fn two_digits(n: nat) -> Seq<char> {
    if n < 10 {
        seq!['0'] + decimal(n)
    } else {
        decimal(n)
    }
}

/// A duration in seconds, compact: "42s", "4m12s", "31m", "1h02m", "2h".
/// Under a minute, the seconds; under an hour, the minutes and the seconds
/// on two digits; beyond, the hours and the minutes on two digits. The
/// smaller field is left out when it is zero.
pub open spec fn duration_text(secs: nat) -> Seq<char> {
    if secs < 60 {
        decimal(secs).push('s')
    } else if secs < 3600 {
        if secs % 60 == 0 {
            decimal(secs / 60).push('m')
        } else {
            decimal(secs / 60).push('m') + two_digits(secs % 60).push('s')
        }
    } else {
        if (secs % 3600) / 60 == 0 {
            decimal(secs / 3600).push('h')
        } else {
            decimal(secs / 3600).push('h') + two_digits((secs % 3600) / 60).push('m')
        }
    }
}

fn push_two_digits(s: &mut String, n: u64)
    ensures
        final(s)@ == old(s)@ + two_digits(n as nat),
{
    if n < 10 {
        push_char(s, '0');
    }
    push_decimal(s, n);
    assert(s@ =~= old(s)@ + two_digits(n as nat));
}

/// "4m12s", "1h02m", "31m": compact enough to fit on a card.
pub fn fmt_dur(secs: u64) -> (r: String)
    ensures
        r@ == duration_text(secs as nat),
{
    let mut r = String::new();
    if secs < 60 {
        push_decimal(&mut r, secs);
        push_char(&mut r, 's');
    } else if secs < 3600 {
        push_decimal(&mut r, secs / 60);
        push_char(&mut r, 'm');
        if secs % 60 != 0 {
            push_two_digits(&mut r, secs % 60);
            push_char(&mut r, 's');
        }
    } else {
        push_decimal(&mut r, secs / 3600);
        push_char(&mut r, 'h');
        if (secs % 3600) / 60 != 0 {
            push_two_digits(&mut r, (secs % 3600) / 60);
            push_char(&mut r, 'm');
        }
    }
    assert(r@ =~= duration_text(secs as nat));
    r
}

proof fn lemma_valid_lanes(o: Seq<usize>)
    ensures
        valid_lanes(o).no_duplicates(),
        forall|i: int| 0 <= i < valid_lanes(o).len() ==> #[trigger] valid_lanes(o)[i] < N_LANES,
        forall|k: usize| k < N_LANES ==> (#[trigger] valid_lanes(o).contains(k) <==> o.contains(k)),
    decreases o.len(),
{
    if o.len() > 0 {
        let p = o.drop_last();
        lemma_valid_lanes(p);
        let r = valid_lanes(p);
        let x = o.last();
        assert forall|k: usize| k < N_LANES implies (#[trigger] valid_lanes(o).contains(k)
            <==> o.contains(k)) by {
            if o.contains(k) {
                let t = choose|t: int| 0 <= t < o.len() && o[t] == k;
                if t < o.len() - 1 {
                    assert(p[t] == k);
                    assert(p.contains(k));
                    assert(r.contains(k));
                    if x < N_LANES && !r.contains(x) {
                        let u = choose|u: int| 0 <= u < r.len() && r[u] == k;
                        assert(valid_lanes(o)[u] == k);
                    }
                } else {
                    if x < N_LANES && !r.contains(x) {
                        assert(valid_lanes(o)[r.len() as int] == k);
                    } else {
                        assert(r.contains(k));
                    }
                }
            }
            if valid_lanes(o).contains(k) {
                let t = choose|t: int| 0 <= t < valid_lanes(o).len() && valid_lanes(o)[t] == k;
                if t < r.len() {
                    assert(r[t] == k);
                    assert(r.contains(k));
                    assert(p.contains(k));
                    let u = choose|u: int| 0 <= u < p.len() && p[u] == k;
                    assert(o[u] == k);
                } else {
                    assert(o[o.len() - 1] == k);
                }
            }
        }
    }
}

proof fn lemma_missing_lanes(kept: Seq<usize>, n: nat)
    requires
        n <= N_LANES,
    ensures
        missing_lanes(kept, n).no_duplicates(),
        forall|i: int|
            0 <= i < missing_lanes(kept, n).len() ==> #[trigger] missing_lanes(kept, n)[i] < n
                && !kept.contains(missing_lanes(kept, n)[i]),
        forall|k: usize| k < n && !kept.contains(k) ==> #[trigger] missing_lanes(kept, n).contains(k),
    decreases n,
{
    if n > 0 {
        lemma_missing_lanes(kept, (n - 1) as nat);
        let r = missing_lanes(kept, (n - 1) as nat);
        let m = missing_lanes(kept, n);
        assert(m == if kept.contains((n - 1) as usize) {
            r
        } else {
            r.push((n - 1) as usize)
        });
        assert forall|i: int, j: int| 0 <= i < m.len() && 0 <= j < m.len() && i != j implies m[i]
            != m[j] by {
            assert(r.no_duplicates());
            if i < r.len() && j < r.len() {
                assert(m[i] == r[i] && m[j] == r[j]);
                assert(r[i] != r[j]);
            } else if i < r.len() {
                assert(m[i] == r[i]);
                assert(r[i] < n - 1);
                assert(m[j] == (n - 1) as usize);
            } else if j < r.len() {
                assert(m[j] == r[j]);
                assert(r[j] < n - 1);
                assert(m[i] == (n - 1) as usize);
            }
        }
        assert forall|k: usize| k < n && !kept.contains(k) implies #[trigger] missing_lanes(
            kept,
            n,
        ).contains(k) by {
            if k < n - 1 {
                assert(r.contains(k));
                let t = choose|t: int| 0 <= t < r.len() && r[t] == k;
                assert(missing_lanes(kept, n)[t] == k);
            } else {
                assert(missing_lanes(kept, n)[r.len() as int] == k);
            }
        }
    }
}

/// A repaired order holds every lane exactly once and nothing else.
pub proof fn lemma_fixed_order_is_lane_order(order: Seq<usize>)
    ensures
        is_lane_order(fixed_order(order)),
{
    lemma_valid_lanes(order);
    let v = valid_lanes(order);
    lemma_missing_lanes(v, N_LANES as nat);
    let m = missing_lanes(v, N_LANES as nat);
    let f = fixed_order(order);
    assert forall|i: int, j: int| 0 <= i < f.len() && 0 <= j < f.len() && i != j implies f[i]
        != f[j] by {
        if i < v.len() && j >= v.len() {
            assert(!v.contains(m[j - v.len()]));
            assert(v[i] == f[i]);
        } else if j < v.len() && i >= v.len() {
            assert(!v.contains(m[i - v.len()]));
            assert(v[j] == f[j]);
        } else if i >= v.len() && j >= v.len() {
            assert(m[i - v.len()] != m[j - v.len()]);
        }
    }
    assert forall|i: int| 0 <= i < f.len() implies #[trigger] f[i] < N_LANES by {
        if i >= v.len() {
            assert(m[i - v.len()] < N_LANES);
        }
    }
    assert forall|k: usize| k < N_LANES implies #[trigger] f.contains(k) by {
        if v.contains(k) {
            let t = choose|t: int| 0 <= t < v.len() && v[t] == k;
            assert(f[t] == k);
        } else {
            assert(m.contains(k));
            let t = choose|t: int| 0 <= t < m.len() && m[t] == k;
            assert(f[v.len() + t] == k);
        }
    }
}

proof fn lemma_valid_lanes_of_order(o: Seq<usize>)
    requires
        o.no_duplicates(),
        forall|i: int| 0 <= i < o.len() ==> #[trigger] o[i] < N_LANES,
    ensures
        valid_lanes(o) == o,
    decreases o.len(),
{
    if o.len() > 0 {
        let p = o.drop_last();
        assert forall|i: int, j: int| 0 <= i < p.len() && 0 <= j < p.len() && i != j implies p[i]
            != p[j] by {
            assert(p[i] == o[i] && p[j] == o[j]);
        }
        assert forall|i: int| 0 <= i < p.len() implies #[trigger] p[i] < N_LANES by {
            assert(p[i] == o[i]);
        }
        lemma_valid_lanes_of_order(p);
        assert(o.last() < N_LANES);
        if p.contains(o.last()) {
            let t = choose|t: int| 0 <= t < p.len() && p[t] == o.last();
            assert(o[t] == o[o.len() - 1]);
        }
        assert(p.push(o.last()) =~= o);
    }
}

proof fn lemma_missing_none(kept: Seq<usize>, n: nat)
    requires
        n <= N_LANES,
        forall|k: usize| k < n ==> #[trigger] kept.contains(k),
    ensures
        missing_lanes(kept, n) == Seq::<usize>::empty(),
    decreases n,
{
    if n > 0 {
        lemma_missing_none(kept, (n - 1) as nat);
        assert(kept.contains((n - 1) as usize));
    }
}

/// Repairing an order that already holds every lane once changes nothing.
pub proof fn lemma_fixed_order_keeps_lane_order(order: Seq<usize>)
    requires
        is_lane_order(order),
    ensures
        fixed_order(order) == order,
{
    lemma_valid_lanes_of_order(order);
    lemma_missing_none(order, N_LANES as nat);
    assert(order + Seq::<usize>::empty() =~= order);
}

/// In an order without repeats, the lane painted at a position is found
/// back at that position, and the lane at a lane's position is that lane.
pub proof fn lemma_position_lane_at(order: Seq<usize>, pos: usize, lane: usize)
    requires
        order.no_duplicates(),
        order.len() <= usize::MAX,
    ensures
        pos < order.len() ==> position_in(order, lane_at(order, pos)) == pos,
        order.contains(lane) ==> lane_at(order, position_in(order, lane)) == lane,
{
    if pos < order.len() {
        assert(first_at(order, order[pos as int], pos as int));
        lemma_first_at_unique(order, order[pos as int], pos as int);
    }
    if order.contains(lane) {
        let t = choose|t: int| 0 <= t < order.len() && order[t] == lane;
        assert(first_at(order, lane, t));
        lemma_first_at_unique(order, lane, t);
    }
}

/// The natural order `0..N_LANES` holds every lane once.
proof fn lemma_natural_order()
    ensures
        is_lane_order(lanes_upto(N_LANES as nat)),
{
    let s = lanes_upto(N_LANES as nat);
    assert forall|k: usize| k < N_LANES implies #[trigger] s.contains(k) by {
        assert(s[k as int] == k);
    }
}

/// Moving a lane keeps an order that holds every lane once such an order.
pub proof fn lemma_swap_keeps_lane_order(order: Seq<usize>, lane: usize, down: bool)
    requires
        is_lane_order(order),
        order.contains(lane),
        order.len() <= usize::MAX,
        lane_swap(order, lane, down) is Some,
    ensures
        is_lane_order(lane_swap(order, lane, down)->0),
{
    lemma_swap_back(order, lane, down);
    let moved = lane_swap(order, lane, down)->0;
    assert forall|i: int| 0 <= i < moved.len() implies #[trigger] moved[i] < N_LANES by {
        assert(moved.to_set().contains(moved[i]));
        assert(order.to_set().contains(moved[i]));
    }
    assert forall|k: usize| k < N_LANES implies #[trigger] moved.contains(k) by {
        assert(order.contains(k));
        assert(order.to_set().contains(k));
        assert(moved.to_set().contains(k));
    }
}

/// Moving a lane one position and then back the other way restores the
/// order; in between, the lane sits one position further that way.
pub proof fn lemma_swap_back(order: Seq<usize>, lane: usize, down: bool)
    requires
        order.no_duplicates(),
        order.contains(lane),
        order.len() <= usize::MAX,
        lane_swap(order, lane, down) is Some,
    ensures
        ({
            let moved = lane_swap(order, lane, down)->0;
            &&& moved.no_duplicates()
            &&& moved.to_set() == order.to_set()
            &&& position_in(moved, lane) == if down {
                position_in(order, lane) + 1
            } else {
                position_in(order, lane) - 1
            }
            &&& lane_swap(moved, lane, !down) == Some(order)
        }),
{
    let t = choose|t: int| 0 <= t < order.len() && order[t] == lane;
    assert(first_at(order, lane, t));
    lemma_first_at_unique(order, lane, t);
    let pos = t;
    let other = if down { pos + 1 } else { pos - 1 };
    let moved = lane_swap(order, lane, down)->0;
    assert(moved == order.update(pos, order[other]).update(other, order[pos]));
    assert forall|i: int, j: int| 0 <= i < moved.len() && 0 <= j < moved.len() && i != j implies moved[i]
        != moved[j] by {
        let oi = if i == pos { other } else if i == other { pos } else { i };
        let oj = if j == pos { other } else if j == other { pos } else { j };
        assert(moved[i] == order[oi]);
        assert(moved[j] == order[oj]);
    }
    assert forall|x: usize| #[trigger] moved.to_set().contains(x) == order.to_set().contains(x) by {
        if moved.contains(x) {
            let i = choose|i: int| 0 <= i < moved.len() && moved[i] == x;
            let oi = if i == pos { other } else if i == other { pos } else { i };
            assert(order[oi] == x);
        }
        if order.contains(x) {
            let i = choose|i: int| 0 <= i < order.len() && order[i] == x;
            let mi = if i == pos { other } else if i == other { pos } else { i };
            assert(moved[mi] == x);
        }
    }
    assert(moved.to_set() =~= order.to_set());
    assert(moved[other] == lane);
    assert(first_at(moved, lane, other));
    lemma_first_at_unique(moved, lane, other);
    assert(moved.update(other, moved[pos]).update(pos, moved[other]) =~= order);
}

} // verus!

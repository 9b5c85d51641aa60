//! Layout rules of the board's drawing: which lanes show, how tall they
//! are, and how card text wraps.

use vstd::prelude::*;
use crate::app::{App, Col};
use crate::store::lane_of_id;
use crate::tmux::State;
use crate::text::{is_white_space, push_char, white_space};
use crate::tmux::{lines, lines_of};

verus! {

/// The words of `s` (`str::split_whitespace`): maximal runs of characters
/// that are not white space.
pub open spec fn words_of(s: Seq<char>) -> Seq<Seq<char>>
    decreases s.len(),
{
    if s.len() == 0 {
        Seq::empty()
    } else {
        let w = words_of(s.drop_last());
        let c = s.last();
        if is_white_space(c) {
            w
        } else if s.len() > 1 && !is_white_space(s[s.len() - 2]) {
            w.update(w.len() - 1, w.last().push(c))
        } else {
            w.push(seq![c])
        }
    }
}

/// A text ending in a word has at least one word.
pub proof fn lemma_words_nonempty(s: Seq<char>)
    ensures
        s.len() > 0 && !is_white_space(s.last()) ==> words_of(s).len() > 0,
    decreases s.len(),
{
    if s.len() > 1 {
        lemma_words_nonempty(s.drop_last());
    }
}

/// The words of `s`.
pub fn words(s: &str) -> (r: Vec<String>)
    ensures
        r.deep_view() == words_of(s@),
{
    let mut done: Vec<String> = Vec::new();
    let mut cur = String::new();
    let mut in_word = false;
    assert(s@.take(0) =~= Seq::<char>::empty());
    for c in it: s.chars()
        invariant
            it.seq() == s@,
            in_word == (it.index() > 0 && !is_white_space(s@[it.index() - 1])),
            (if in_word {
                done.deep_view().push(cur@)
            } else {
                done.deep_view()
            }) == words_of(s@.take(it.index() as int)),
    {
        let ghost k = it.index() as int;
        let ghost before = words_of(s@.take(k));
        assert(s@.take(k + 1).drop_last() =~= s@.take(k));
        assert(s@.take(k + 1).last() == c);
        proof {
            if k > 0 {
                assert(s@.take(k + 1)[k - 1] == s@[k - 1]);
            }
        }
        if white_space(c) {
            if in_word {
                let w = cur;
                cur = String::new();
                done.push(w);
            }
            in_word = false;
        } else {
            if in_word {
                proof {
                    lemma_words_nonempty(s@.take(k));
                }
                push_char(&mut cur, c);
                assert(done.deep_view().push(cur@) =~= before.update(
                    before.len() - 1,
                    before.last().push(c),
                ));
            } else {
                cur = String::new();
                push_char(&mut cur, c);
                assert(done.deep_view().push(cur@) =~= before.push(seq![c]));
            }
            in_word = true;
        }
    }
    assert(s@.take(s@.len() as int) =~= s@);
    if in_word {
        done.push(cur);
    }
    done
}

/// Greedy filling of one line's words into rows of at most `w` characters:
/// the finished rows and the row being filled.
pub open spec fn fill_rows(words: Seq<Seq<char>>, w: nat) -> (Seq<Seq<char>>, Seq<char>)
    decreases words.len(),
{
    if words.len() == 0 {
        (Seq::empty(), Seq::empty())
    } else {
        let (d, c) = fill_rows(words.drop_last(), w);
        let x = words.last();
        if c.len() == 0 {
            (d, x)
        } else if c.len() + 1 + x.len() <= w {
            (d, c + seq![' '] + x)
        } else {
            (d.push(c), x)
        }
    }
}

/// The rows one line of text wraps into (an empty line gives one empty row).
pub open spec fn wrap_line(raw: Seq<char>, w: nat) -> Seq<Seq<char>> {
    let (d, c) = fill_rows(words_of(raw), w);
    d.push(c)
}

/// The rows of several lines, one after the other.
pub open spec fn wrap_lines(ls: Seq<Seq<char>>, w: nat) -> Seq<Seq<char>>
    decreases ls.len(),
{
    if ls.len() == 0 {
        Seq::empty()
    } else {
        wrap_lines(ls.drop_last(), w) + wrap_line(ls.last(), w)
    }
}

/// `text` wrapped into rows of at most `max(w, 8)` characters, words kept
/// whole (a longer word gets a row of its own); at least one row.
pub open spec fn wrapped(text: Seq<char>, w: nat) -> Seq<Seq<char>> {
    let width = if w < 8 {
        8
    } else {
        w
    };
    let r = wrap_lines(lines_of(text), width);
    if r.len() == 0 {
        seq![Seq::<char>::empty()]
    } else {
        r
    }
}

/// `s` holds no white space.
pub open spec fn no_white(s: Seq<char>) -> bool {
    forall|k: int| 0 <= k < s.len() ==> !is_white_space(#[trigger] s[k])
}

/// A row fits in `w` characters, or is a single word.
pub open spec fn row_fits(row: Seq<char>, w: nat) -> bool {
    row.len() <= w || no_white(row)
}

/// The words of a text hold no white space.
proof fn lemma_words_no_white(s: Seq<char>)
    ensures
        forall|i: int| 0 <= i < words_of(s).len() ==> no_white(#[trigger] words_of(s)[i]),
    decreases s.len(),
{
    if s.len() > 0 {
        lemma_words_no_white(s.drop_last());
        let w = words_of(s.drop_last());
        let c = s.last();
        if !is_white_space(c) {
            if s.len() > 1 && !is_white_space(s[s.len() - 2]) {
                lemma_words_nonempty(s.drop_last());
                let lw = w.last();
                assert(no_white(w[w.len() - 1]));
                assert(no_white(lw.push(c))) by {
                    assert forall|k: int| 0 <= k < lw.push(c).len() implies !is_white_space(#[trigger] lw.push(c)[k]) by {
                        if k < lw.len() {
                            assert(lw.push(c)[k] == lw[k]);
                        }
                    }
                }
            } else {
                assert(no_white(seq![c]));
            }
        }
    }
}

/// Greedy filling makes rows that fit, or single words.
proof fn lemma_fill_rows_fit(words: Seq<Seq<char>>, w: nat)
    requires
        forall|i: int| 0 <= i < words.len() ==> no_white(#[trigger] words[i]),
    ensures
        forall|i: int| 0 <= i < fill_rows(words, w).0.len() ==> row_fits(#[trigger] fill_rows(words, w).0[i], w),
        row_fits(fill_rows(words, w).1, w),
    decreases words.len(),
{
    if words.len() > 0 {
        let p = words.drop_last();
        assert forall|i: int| 0 <= i < p.len() implies no_white(#[trigger] p[i]) by {
            assert(p[i] == words[i]);
        }
        lemma_fill_rows_fit(p, w);
        assert(no_white(words[words.len() - 1]));
    }
}

/// The rows of several lines all fit, or are single words.
proof fn lemma_wrap_lines_fit(ls: Seq<Seq<char>>, w: nat)
    ensures
        forall|i: int| 0 <= i < wrap_lines(ls, w).len() ==> row_fits(#[trigger] wrap_lines(ls, w)[i], w),
    decreases ls.len(),
{
    if ls.len() > 0 {
        lemma_wrap_lines_fit(ls.drop_last(), w);
        lemma_words_no_white(ls.last());
        lemma_fill_rows_fit(words_of(ls.last()), w);
        let a = wrap_lines(ls.drop_last(), w);
        let b = wrap_line(ls.last(), w);
        assert forall|i: int| 0 <= i < wrap_lines(ls, w).len() implies row_fits(#[trigger] wrap_lines(ls, w)[i], w) by {
            if i < a.len() {
                assert(wrap_lines(ls, w)[i] == a[i]);
            } else {
                assert(wrap_lines(ls, w)[i] == b[i - a.len()]);
            }
        }
    }
}

/// Wrapping keeps words whole within the width: every row is at most
/// `max(w, 8)` characters long, unless it is a single longer word.
pub proof fn lemma_wrapped_rows_fit(text: Seq<char>, w: nat)
    ensures
        forall|i: int|
            0 <= i < wrapped(text, w).len() ==> row_fits(#[trigger] wrapped(text, w)[i], if w < 8 { 8 } else { w }),
{
    let width: nat = if w < 8 { 8 } else { w };
    lemma_wrap_lines_fit(lines_of(text), width);
}

/// Rows for one line of text.
fn wrap_one(raw: &str, w: usize, out: &mut Vec<String>)
    ensures
        final(out).deep_view() == old(out).deep_view() + wrap_line(raw@, w as nat),
{
    let ws = words(raw);
    let ghost wv = ws.deep_view();
    let n = ws.len();
    let mut done: Vec<String> = Vec::new();
    let mut cur = String::new();
    let mut cur_len: usize = 0;
    let mut i: usize = 0;
    assert(wv.take(0) =~= Seq::<Seq<char>>::empty());
    while i < n
        invariant
            i <= n,
            n == wv.len(),
            wv == ws.deep_view(),
            cur_len == cur@.len(),
            (done.deep_view(), cur@) == fill_rows(wv.take(i as int), w as nat),
        decreases n - i,
    {
        assert(wv.take(i + 1).drop_last() =~= wv.take(i as int));
        assert(wv.take(i + 1).last() == wv[i as int]);
        assert(ws@[i as int]@ == wv[i as int]);
        let word: &str = ws[i].as_str();
        let wl = word.unicode_len();
        if cur_len == 0 {
            cur = word.to_owned();
            cur_len = wl;
        } else if cur_len < w && wl <= w - 1 - cur_len {
            push_char(&mut cur, ' ');
            cur.append(word);
            cur_len = cur_len + 1 + wl;
            assert(cur@ =~= fill_rows(wv.take(i as int), w as nat).1 + seq![' '] + wv[i as int]);
        } else {
            let row = cur;
            done.push(row);
            cur = word.to_owned();
            cur_len = wl;
        }
        i = i + 1;
    }
    assert(wv.take(n as int) =~= wv);
    done.push(cur);
    let ghost pre = out.deep_view();
    let m = done.len();
    let mut j: usize = 0;
    while j < m
        invariant
            j <= m,
            m == done@.len(),
            out.deep_view() == pre + done.deep_view().take(j as int),
        decreases m - j,
    {
        let ghost before = out.deep_view();
        let row = done[j].clone();
        assert(row@ == done.deep_view()[j as int]);
        out.push(row);
        assert(out.deep_view() =~= before.push(done.deep_view()[j as int]));
        assert(done.deep_view().take(j + 1) =~= done.deep_view().take(j as int).push(done.deep_view()[j as int]));
        j = j + 1;
        assert(out.deep_view() =~= pre + done.deep_view().take(j as int));
    }
    assert(done.deep_view().take(m as int) =~= done.deep_view());
}

/// Wraps `text` into rows of at most `max(w, 8)` characters, words kept
/// whole, a row per line at least; one empty row for an empty text.
pub fn wrap(text: &str, w: usize) -> (r: Vec<String>)
    ensures
        r.deep_view() == wrapped(text@, w as nat),
{
    let width = if w < 8 {
        8
    } else {
        w
    };
    let ls = lines(text);
    let ghost lv = ls.deep_view();
    let mut out: Vec<String> = Vec::new();
    let n = ls.len();
    let mut i: usize = 0;
    assert(lv.take(0) =~= Seq::<Seq<char>>::empty());
    while i < n
        invariant
            i <= n,
            n == lv.len(),
            lv == ls.deep_view(),
            out.deep_view() == wrap_lines(lv.take(i as int), width as nat),
        decreases n - i,
    {
        assert(lv.take(i + 1).drop_last() =~= lv.take(i as int));
        assert(lv.take(i + 1).last() == lv[i as int]);
        assert(ls@[i as int]@ == lv[i as int]);
        wrap_one(ls[i].as_str(), width, &mut out);
        i = i + 1;
    }
    assert(lv.take(n as int) =~= lv);
    if out.len() == 0 {
        out.push(String::new());
        assert(out.deep_view() =~= seq![Seq::<char>::empty()]);
    }
    out
}

/// Sum of the heights.
pub open spec fn total(s: Seq<u16>) -> int
    decreases s.len(),
{
    if s.len() == 0 {
        0
    } else {
        total(s.drop_last()) + s.last()
    }
}

/// Height a lane asks for with `cards` cards in its fullest column: about 6
/// rows per pane card plus 2 of border, at least 5 so that an empty lane
/// shows, at most 26. The count is taken as a `u16`.
pub open spec fn want_height(cards: usize) -> u16 {
    let h = (cards % 65536) * 6 + 2;
    if h < 5 {
        5
    } else if h > 26 {
        26
    } else {
        h as u16
    }
}

/// Height a lane asks for with `cards` cards in its fullest column.
pub fn lane_want(cards: usize) -> (r: u16)
    requires
        (cards % 65536) * 6 + 2 <= u16::MAX,
    ensures
        r == want_height(cards),
{
    let c = (cards % 65536) as u16;
    let h = c * 6 + 2;
    if h < 5 {
        5
    } else if h > 26 {
        26
    } else {
        h
    }
}

/// Heights given to the lanes that ask for `want` when `avail` rows are
/// there: what they ask if it fits; otherwise a proportional share with a
/// floor of 5 rows; when not even 5 rows each fit, equal parts (at least 3).
/// The number of lanes is counted as a `u16`.
pub open spec fn heights_of(want: Seq<u16>, avail: u16) -> Seq<u16> {
    let t = total(want);
    let n = want.len();
    let c = n % 65536;
    if t <= avail {
        want
    } else if avail >= 5 * c {
        Seq::new(
            n,
            |i: int|
                {
                    let share = (want[i] * avail / t) as u16;
                    if share < 5 {
                        5u16
                    } else {
                        share
                    }
                },
        )
    } else {
        Seq::new(
            n,
            |i: int|
                {
                    let eq = (avail as int / c as int) as u16;
                    if eq < 3 {
                        3u16
                    } else {
                        eq
                    }
                },
        )
    }
}

proof fn lemma_total_bounds(s: Seq<u16>)
    ensures
        total(s) >= 0,
        forall|i: int| 0 <= i < s.len() ==> #[trigger] s[i] <= total(s),
    decreases s.len(),
{
    if s.len() > 0 {
        lemma_total_bounds(s.drop_last());
        assert forall|i: int| 0 <= i < s.len() implies #[trigger] s[i] <= total(s) by {
            if i < s.len() - 1 {
                assert(s[i] == s.drop_last()[i]);
            }
        }
    }
}

/// Heights for the visible lanes (see [`heights_of`]): when everything does
/// not fit, lanes shrink proportionally instead of being lost.
pub fn lane_heights(want: &Vec<u16>, avail: u16) -> (r: Vec<u16>)
    requires
        total(want@) <= u16::MAX,
        total(want@) > avail ==> 5 * (want@.len() % 65536) <= u16::MAX,
    ensures
        r@ == heights_of(want@, avail),
{
    let n = want.len();
    let mut t: u16 = 0;
    let mut i: usize = 0;
    assert(want@.take(0) =~= Seq::<u16>::empty());
    while i < n
        invariant
            i <= n,
            n == want@.len(),
            total(want@) <= u16::MAX,
            t == total(want@.take(i as int)),
        decreases n - i,
    {
        assert(want@.take(i + 1).drop_last() =~= want@.take(i as int));
        proof {
            lemma_total_bounds(want@.take(i + 1));
            assert(want@.take(n as int) =~= want@);
            lemma_total_prefix(want@, i + 1);
        }
        t = t + want[i];
        i = i + 1;
    }
    assert(want@.take(n as int) =~= want@);
    if t <= avail {
        return want.clone();
    }
    let nn = (n % 65536) as u16;
    let mut r: Vec<u16> = Vec::new();
    let mut j: usize = 0;
    proof {
        lemma_total_bounds(want@);
    }
    if avail >= 5 * nn {
        while j < n
            invariant
                j <= n,
                n == want@.len(),
                t == total(want@),
                t > avail,
                forall|k: int| 0 <= k < want@.len() ==> #[trigger] want@[k] <= t,
                r@.len() == j,
                forall|k: int|
                    0 <= k < j ==> #[trigger] r@[k] == {
                        let share = (want@[k] * avail / (t as int)) as u16;
                        if share < 5 {
                            5u16
                        } else {
                            share
                        }
                    },
            decreases n - j,
        {
            let w = want[j];
            assert(w * avail <= t * avail) by (nonlinear_arith)
                requires
                    w <= t,
                    0 <= avail,
            ;
            assert(w * avail / (t as int) <= avail) by (nonlinear_arith)
                requires
                    w * avail <= t * avail,
                    t > 0,
                    avail >= 0,
            ;
            assert((w as u32) * (avail as u32) <= 65535 * 65535) by (nonlinear_arith)
                requires
                    w <= 65535,
                    avail <= 65535,
            ;
            let share = ((w as u32) * (avail as u32) / (t as u32)) as u16;
            r.push(if share < 5 {
                5
            } else {
                share
            });
            j = j + 1;
        }
        assert(r@ =~= heights_of(want@, avail));
    } else {
        let eq = avail / nn;
        let h = if eq < 3 {
            3
        } else {
            eq
        };
        while j < n
            invariant
                j <= n,
                r@.len() == j,
                forall|k: int| 0 <= k < j ==> #[trigger] r@[k] == h,
            decreases n - j,
        {
            r.push(h);
            j = j + 1;
        }
        assert(r@ =~= heights_of(want@, avail));
    }
    r
}

proof fn lemma_total_prefix(s: Seq<u16>, k: int)
    requires
        0 <= k <= s.len(),
    ensures
        total(s.take(k)) <= total(s),
    decreases s.len() - k,
{
    if k < s.len() {
        lemma_total_prefix(s, k + 1);
        assert(s.take(k + 1).drop_last() =~= s.take(k));
    } else {
        assert(s.take(k) =~= s);
    }
}

impl App {
    /// A lane is shown when it has a card in any column, or holds the
    /// selection (so that moving to an empty lane shows it).
    pub open spec fn lane_shown(&self, lane: usize, sel_lane: Option<usize>) -> bool {
        ||| self.prompts_in_spec(lane).len() > 0
        ||| self.panes_in_spec(lane, Col::InProgress).len() > 0
        ||| self.panes_in_spec(lane, Col::Waiting).len() > 0
        ||| sel_lane == Some(lane)
    }

    /// The lanes shown among the first `k` of the painting order.
    pub open spec fn visible_upto(&self, k: nat, sel_lane: Option<usize>) -> Seq<usize>
        decreases k,
    {
        if k == 0 {
            Seq::empty()
        } else {
            let r = self.visible_upto((k - 1) as nat, sel_lane);
            let l = self.store.lane_order@[k - 1];
            if self.lane_shown(l, sel_lane) {
                r.push(l)
            } else {
                r
            }
        }
    }

    /// The lanes shown, in painting order.
    pub open spec fn visible_spec(&self) -> Seq<usize> {
        let sel_lane = match self.selected_spec() {
            Some(c) => Some(c.0),
            None => None,
        };
        self.visible_upto(self.store.lane_order@.len(), sel_lane)
    }

    /// The lanes shown among the first `k` of the order are those lanes
    /// that `lane_shown` admits.
    proof fn lemma_visible_upto(&self, k: nat, sel_lane: Option<usize>)
        requires
            k <= self.store.lane_order@.len(),
        ensures
            forall|l: usize|
                #[trigger] self.visible_upto(k, sel_lane).contains(l) <==> (exists|t: int|
                    0 <= t < k && self.store.lane_order@[t] == l) && self.lane_shown(l, sel_lane),
        decreases k,
    {
        if k > 0 {
            self.lemma_visible_upto((k - 1) as nat, sel_lane);
            let r = self.visible_upto((k - 1) as nat, sel_lane);
            let q = self.visible_upto(k, sel_lane);
            let x = self.store.lane_order@[k - 1];
            assert forall|l: usize| #[trigger] q.contains(l) <==> (exists|t: int|
                0 <= t < k && self.store.lane_order@[t] == l) && self.lane_shown(l, sel_lane) by {
                if q.contains(l) {
                    let i = choose|i: int| 0 <= i < q.len() && q[i] == l;
                    if i < r.len() {
                        assert(r[i] == l);
                        assert(r.contains(l));
                        let t = choose|t: int| 0 <= t < k - 1 && self.store.lane_order@[t] == l;
                        assert(0 <= t < k && self.store.lane_order@[t] == l);
                    } else {
                        assert(l == x);
                    }
                }
                if (exists|t: int| 0 <= t < k && self.store.lane_order@[t] == l) && self.lane_shown(l, sel_lane) {
                    let t = choose|t: int| 0 <= t < k && self.store.lane_order@[t] == l;
                    if t < k - 1 {
                        assert(r.contains(l));
                        let i = choose|i: int| 0 <= i < r.len() && r[i] == l;
                        assert(q[i] == l);
                    } else {
                        assert(q[q.len() - 1] == l);
                    }
                }
            }
        }
    }

    /// A lane has a card in column `col` exactly when one of its items is
    /// there.
    proof fn lemma_items_nonempty(&self, lane: usize, col: Col)
        requires
            self.sized(),
        ensures
            self.items_spec(lane, col).len() > 0 <==> exists|x: usize| self.is_item(lane, col, x),
    {
        self.lemma_items(lane, col);
        if self.items_spec(lane, col).len() > 0 {
            assert(self.items_spec(lane, col).contains(self.items_spec(lane, col)[0]));
        }
        if exists|x: usize| self.is_item(lane, col, x) {
            let x = choose|x: usize| self.is_item(lane, col, x);
            assert(self.items_spec(lane, col).contains(x));
        }
    }

    /// The lanes drawn are exactly the lanes of the painting order that hold
    /// a card, whatever the active column (a prompt, or a pane, working or
    /// waiting), and the lane of the selection.
    pub proof fn lemma_visible_lanes(&self)
        requires
            self.sized(),
        ensures
            forall|l: usize|
                #[trigger] self.visible_spec().contains(l) <==> self.store.lane_order@.contains(l) && ((exists|i: int|
                    0 <= i < self.store.prompts@.len() && self.store.prompts@[i].lane == l) || (exists|i: int|
                    0 <= i < self.panes@.len() && lane_of_id(self.store.pane_lane@, self.panes@[i].id@) == l)
                    || (self.selected_spec() is Some && (self.selected_spec()->0).0 == l)),
    {
        let sel_lane = match self.selected_spec() {
            Some(c) => Some(c.0),
            None => None,
        };
        let n = self.store.lane_order@.len();
        self.lemma_visible_upto(n, sel_lane);
        assert forall|l: usize| #[trigger] self.visible_spec().contains(l) <==> self.store.lane_order@.contains(l) && (
        (exists|i: int| 0 <= i < self.store.prompts@.len() && self.store.prompts@[i].lane == l) || (exists|i: int|
            0 <= i < self.panes@.len() && lane_of_id(self.store.pane_lane@, self.panes@[i].id@) == l) || (
        self.selected_spec() is Some && (self.selected_spec()->0).0 == l)) by {
            self.lemma_items_nonempty(l, Col::Todo);
            self.lemma_items_nonempty(l, Col::InProgress);
            self.lemma_items_nonempty(l, Col::Waiting);
            if exists|i: int| 0 <= i < self.store.prompts@.len() && self.store.prompts@[i].lane == l {
                let i = choose|i: int| 0 <= i < self.store.prompts@.len() && self.store.prompts@[i].lane == l;
                assert(self.is_item(l, Col::Todo, i as usize));
            }
            if exists|i: int| 0 <= i < self.panes@.len() && lane_of_id(self.store.pane_lane@, self.panes@[i].id@) == l {
                let i = choose|i: int|
                    0 <= i < self.panes@.len() && lane_of_id(self.store.pane_lane@, self.panes@[i].id@) == l;
                if self.panes@[i].state == State::Working {
                    assert(self.is_item(l, Col::InProgress, i as usize));
                } else {
                    assert(self.is_item(l, Col::Waiting, i as usize));
                }
            }
        }
    }

    /// The lanes to draw, in the user's painting order: every lane with a
    /// card in any column, plus the lane of the selection.
    pub fn visible_lanes(&self) -> (r: Vec<usize>)
        ensures
            r@ == self.visible_spec(),
    {
        let sel_lane = match self.selected() {
            Some((l, _)) => Some(l),
            None => None,
        };
        let n = self.store.lane_order.len();
        let mut r: Vec<usize> = Vec::new();
        let mut k: usize = 0;
        while k < n
            invariant
                k <= n,
                n == self.store.lane_order@.len(),
                sel_lane == match self.selected_spec() {
                    Some(c) => Some(c.0),
                    None => None,
                },
                r@ == self.visible_upto(k as nat, sel_lane),
            decreases n - k,
        {
            let l = self.store.lane_order[k];
            let shown = self.prompts_in(l).len() > 0 || self.panes_in(l, Col::InProgress).len() > 0
                || self.panes_in(l, Col::Waiting).len() > 0 || sel_lane == Some(l);
            if shown {
                r.push(l);
            }
            k = k + 1;
        }
        r
    }

    /// Cards in the fullest column of a lane.
    pub fn lane_cards(&self, lane: usize) -> (r: usize)
        ensures
            r == vstd::math::max(
                vstd::math::max(
                    self.prompts_in_spec(lane).len() as int,
                    self.panes_in_spec(lane, Col::InProgress).len() as int,
                ),
                self.panes_in_spec(lane, Col::Waiting).len() as int,
            ),
    {
        let a = self.prompts_in(lane).len();
        let b = self.panes_in(lane, Col::InProgress).len();
        let c = self.panes_in(lane, Col::Waiting).len();
        let m = if a >= b {
            a
        } else {
            b
        };
        if m >= c {
            m
        } else {
            c
        }
    }
}

} // verus!

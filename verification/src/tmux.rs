//! The tmux side: recognising coding agent panes and reading their state.
//!
//! State detection relies on the title that the coding agent writes into its pane:
//! a braille spinner while it works, `✳` while it waits for input. That is
//! presentation, not a stable interface; the patterns are kept here.

use vstd::prelude::*;
use crate::text::{push_char, trim, trim_chars};

verus! {

/// Mark that the coding agent puts first in the title while idle, waiting for
/// input (U+2733).
pub const IDLE_MARK: char = '\u{2733}';

/// A spinner frame: any character of the Braille Patterns block
/// (U+2800..=U+28FF). The agent rotates through many frames and a later version
/// could add more, so the whole block is accepted.
pub open spec fn busy_mark(c: char) -> bool {
    0x2800 <= (c as u32) && (c as u32) <= 0x28ff
}

/// `c` is a spinner frame of a working session.
pub fn is_busy_mark(c: char) -> (r: bool)
    ensures
        r == busy_mark(c),
{
    let u = c as u32;
    0x2800 <= u && u <= 0x28ff
}

/// A title that the coding agent wrote: it starts with a spinner frame or the idle
/// mark.
pub open spec fn claude_title(title: Seq<char>) -> bool {
    title.len() > 0 && (title[0] == IDLE_MARK || busy_mark(title[0]))
}

/// Recognises a coding agent pane by the mark at the start of its title. The
/// title is used rather than the command name, which depends on how the agent
/// was launched (a wrapper script shows as "bash"); the mark survives any
/// launcher.
pub fn looks_like_claude(title: &str) -> (r: bool)
    ensures
        r == claude_title(title@),
{
    if title.is_empty() {
        return false;
    }
    let c = title.get_char(0);
    c == IDLE_MARK || is_busy_mark(c)
}

/// What an agent session is doing.
#[derive(Debug, Clone, Copy, PartialEq, Eq, Structural)]
pub enum State {
    Working,
    Waiting,
}

impl View for State {
    type V = State;

    open spec fn view(&self) -> State {
        *self
    }
}

/// A tmux pane running the coding agent.
#[derive(Debug, PartialEq, Eq)]
pub struct Pane {
    /// Stable tmux identifier (`%17`); survives renumbering.
    pub id: String,
    /// Readable position (`0:2.1`); changes when windows are reordered.
    pub loc: String,
    pub window: String,
    pub title: String,
    pub state: State,
}

/// What a pane is, as plain values.
pub struct PaneView {
    pub id: Seq<char>,
    pub loc: Seq<char>,
    pub window: Seq<char>,
    pub title: Seq<char>,
    pub state: State,
}

impl View for Pane {
    type V = PaneView;

    open spec fn view(&self) -> PaneView {
        PaneView {
            id: self.id@,
            loc: self.loc@,
            window: self.window@,
            title: self.title@,
            state: self.state,
        }
    }
}

impl DeepView for Pane {
    type V = PaneView;

    open spec fn deep_view(&self) -> PaneView {
        self@
    }
}

/// The pieces of `s` between occurrences of `sep` (`str::split`): always at
/// least one, possibly empty.
pub open spec fn split_on(s: Seq<char>, sep: char) -> Seq<Seq<char>>
    decreases s.len(),
{
    if s.len() == 0 {
        seq![Seq::<char>::empty()]
    } else {
        let p = split_on(s.drop_last(), sep);
        if s.last() == sep {
            p.push(Seq::<char>::empty())
        } else {
            p.update(p.len() - 1, p.last().push(s.last()))
        }
    }
}

/// The first piece of a split is the text up to the first separator: a
/// prefix of `s` without the separator, followed in `s` by the separator
/// unless it is all of `s`; it is all of `s` exactly when there is a single
/// piece.
pub proof fn lemma_first_piece(s: Seq<char>, sep: char)
    ensures
        split_on(s, sep).len() >= 1,
        split_on(s, sep)[0].len() <= s.len(),
        split_on(s, sep)[0] == s.take(split_on(s, sep)[0].len() as int),
        forall|k: int| 0 <= k < split_on(s, sep)[0].len() ==> split_on(s, sep)[0][k] != sep,
        split_on(s, sep).len() == 1 ==> split_on(s, sep)[0] == s,
        split_on(s, sep).len() > 1 ==> split_on(s, sep)[0].len() < s.len() && s[split_on(s, sep)[0].len() as int] == sep,
    decreases s.len(),
{
    if s.len() == 0 {
        assert(s.take(0) =~= s);
    } else {
        let t = s.drop_last();
        lemma_first_piece(t, sep);
        let p = split_on(t, sep);
        let f = p[0];
        if p.len() == 1 {
            if s.last() == sep {
                assert(split_on(s, sep)[0] == t);
                assert(t =~= s.take(t.len() as int));
            } else {
                assert(split_on(s, sep)[0] == t.push(s.last()));
                assert(t.push(s.last()) =~= s);
                assert(s.take(s.len() as int) =~= s);
            }
        } else {
            assert(split_on(s, sep)[0] == f);
            assert(s.take(f.len() as int) =~= t.take(f.len() as int));
            assert(s[f.len() as int] == t[f.len() as int]);
        }
    }
}

/// Splitting yields at least one piece.
pub proof fn lemma_split_nonempty(s: Seq<char>, sep: char)
    ensures
        split_on(s, sep).len() >= 1,
    decreases s.len(),
{
    if s.len() > 0 {
        lemma_split_nonempty(s.drop_last(), sep);
    }
}

/// The pieces of `s` between occurrences of `sep`.
pub fn split(s: &str, sep: char) -> (r: Vec<String>)
    ensures
        r.deep_view() == split_on(s@, sep),
{
    let mut done: Vec<String> = Vec::new();
    let mut cur = String::new();
    assert(s@.take(0) =~= Seq::<char>::empty());
    assert(done.deep_view().push(cur@) =~= split_on(s@.take(0), sep));
    for c in it: s.chars()
        invariant
            it.seq() == s@,
            done.deep_view().push(cur@) == split_on(s@.take(it.index() as int), sep),
    {
        let ghost k = it.index() as int;
        let ghost before = done.deep_view().push(cur@);
        assert(s@.take(k + 1).drop_last() =~= s@.take(k));
        assert(s@.take(k + 1).last() == c);
        proof {
            lemma_split_nonempty(s@.take(k), sep);
        }
        if c == sep {
            let piece = cur;
            cur = String::new();
            done.push(piece);
            assert(done.deep_view().push(cur@) =~= before.push(Seq::<char>::empty()));
        } else {
            push_char(&mut cur, c);
            assert(done.deep_view().push(cur@) =~= before.update(
                before.len() - 1,
                before.last().push(c),
            ));
        }
    }
    assert(s@.take(s@.len() as int) =~= s@);
    done.push(cur);
    done
}

/// `l` without one trailing carriage return.
pub open spec fn strip_cr(l: Seq<char>) -> Seq<char> {
    if l.len() > 0 && l.last() == '\r' {
        l.drop_last()
    } else {
        l
    }
}

/// The lines of `s` (`str::lines`): split at `\n`, a final line ending
/// being optional; a `\r` just before a `\n` is part of the line ending.
pub open spec fn lines_of(s: Seq<char>) -> Seq<Seq<char>> {
    let p = split_on(s, '\n');
    let ended = s.len() > 0 && s.last() == '\n';
    let q = if s.len() == 0 || ended {
        p.drop_last()
    } else {
        p
    };
    Seq::new(
        q.len(),
        |i: int|
            if i < q.len() - 1 || ended {
                strip_cr(q[i])
            } else {
                q[i]
            },
    )
}

/// `l` without one trailing carriage return.
fn without_cr(l: String) -> (r: String)
    ensures
        r@ == strip_cr(l@),
{
    let n = l.as_str().unicode_len();
    if n > 0 && l.as_str().get_char(n - 1) == '\r' {
        l.as_str().substring_char(0, n - 1).to_owned()
    } else {
        l
    }
}

/// The lines of `s` (`str::lines`).
pub fn lines(s: &str) -> (r: Vec<String>)
    ensures
        r.deep_view() == lines_of(s@),
{
    let pieces = split(s, '\n');
    proof {
        lemma_split_nonempty(s@, '\n');
    }
    let n = s.unicode_len();
    let ended = n > 0 && s.get_char(n - 1) == '\n';
    let ghost q = if s@.len() == 0 || ended {
        split_on(s@, '\n').drop_last()
    } else {
        split_on(s@, '\n')
    };
    let m = if n == 0 || ended {
        pieces.len() - 1
    } else {
        pieces.len()
    };
    assert(m == q.len());
    let mut out: Vec<String> = Vec::new();
    let mut i: usize = 0;
    while i < m
        invariant
            i <= m,
            m == q.len(),
            m <= pieces@.len(),
            pieces.deep_view() == split_on(s@, '\n'),
            q == (if s@.len() == 0 || ended {
                split_on(s@, '\n').drop_last()
            } else {
                split_on(s@, '\n')
            }),
            ended == (s@.len() > 0 && s@.last() == '\n'),
            out@.len() == i,
            forall|j: int|
                0 <= j < i ==> (#[trigger] out@[j])@ == (if j < q.len() - 1 || ended {
                    strip_cr(q[j])
                } else {
                    q[j]
                }),
        decreases m - i,
    {
        let piece = pieces[i].clone();
        assert(piece@ == q[i as int]);
        let line = if i + 1 < m || ended {
            without_cr(piece)
        } else {
            piece
        };
        out.push(line);
        i = i + 1;
    }
    assert(out.deep_view() =~= lines_of(s@));
    out
}

/// The title without its mark and surrounding blanks; the raw title when
/// nothing is left.
pub open spec fn clean_title(t: Seq<char>) -> Seq<char> {
    let c = trim_chars(t.drop_first());
    if c.len() == 0 {
        t
    } else {
        c
    }
}

/// State told by an agent title: a spinner frame means working; anything else
/// (the idle mark) means waiting for the user.
pub open spec fn state_of_title(t: Seq<char>) -> State {
    if busy_mark(t[0]) {
        State::Working
    } else {
        State::Waiting
    }
}

/// The pane that one line of `tmux list-panes` output describes, when it is a
/// agent pane. Fields are tab-separated: id, location, window name, command,
/// title.
pub open spec fn pane_of_line(line: Seq<char>) -> Option<PaneView> {
    let f = split_on(line, '\t');
    if f.len() >= 5 && claude_title(f[4]) {
        Some(
            PaneView {
                id: f[0],
                loc: f[1],
                window: f[2],
                title: clean_title(f[4]),
                state: state_of_title(f[4]),
            },
        )
    } else {
        None
    }
}

/// [`pane_of_line`] as a function value.
pub open spec fn line_parser() -> spec_fn(Seq<char>) -> Option<PaneView> {
    |l: Seq<char>| pane_of_line(l)
}

/// The agent panes that a `tmux list-panes` output lists, in its order.
pub open spec fn panes_of(raw: Seq<char>) -> Seq<PaneView> {
    lines_of(raw).filter_map(line_parser())
}

/// The agent pane that one line describes.
fn parse_line(line: &String) -> (r: Option<Pane>)
    ensures
        match r {
            Some(p) => pane_of_line(line@) == Some(p@),
            None => pane_of_line(line@) is None,
        },
{
    let f = split(line.as_str(), '\t');
    if f.len() < 5 {
        return None;
    }
    let title: &str = f[4].as_str();
    assert(title@ == split_on(line@, '\t')[4]);
    if !looks_like_claude(title) {
        return None;
    }
    let first = title.get_char(0);
    let state = if is_busy_mark(first) {
        State::Working
    } else {
        State::Waiting
    };
    let n = title.unicode_len();
    let rest = title.substring_char(1, n);
    assert(rest@ =~= title@.drop_first());
    let clean = trim(rest);
    let shown = if clean.as_str().is_empty() {
        title.to_owned()
    } else {
        clean
    };
    let p = Pane {
        id: f[0].clone(),
        loc: f[1].clone(),
        window: f[2].clone(),
        title: shown,
        state,
    };
    Some(p)
}

/// Reads every agent pane out of the output of
/// `tmux list-panes -a -F '#{pane_id}\t#{session_name}:#{window_index}.#{pane_index}\t#{window_name}\t#{pane_current_command}\t#{pane_title}'`
/// and classifies it. A pane is recognised by the mark at the start of its
/// title, not by its command, so that it works under any launcher.
pub fn list_claude_panes(raw: &str) -> (r: Vec<Pane>)
    ensures
        r.deep_view() == panes_of(raw@),
{
    let ls = lines(raw);
    let ghost l = lines_of(raw@);
    let mut panes: Vec<Pane> = Vec::new();
    let n = ls.len();
    let mut i: usize = 0;
    assert(l.take(0) =~= Seq::<Seq<char>>::empty());
    while i < n
        invariant
            i <= n,
            n == l.len(),
            ls.deep_view() == l,
            panes.deep_view() == l.take(i as int).filter_map(line_parser()),
        decreases n - i,
    {
        proof {
            l.lemma_filter_map_take_succ(line_parser(), i as int);
        }
        assert(ls@[i as int]@ == l[i as int]);
        let ghost pre = panes.deep_view();
        match parse_line(&ls[i]) {
            Some(p) => {
                panes.push(p);
                assert(panes.deep_view() =~= pre + seq![p@]);
            },
            None => {},
        }
        i = i + 1;
    }
    assert(l.take(n as int) =~= l);
    panes
}

/// The tmux command lines that put the focus on a pane: switch the client to
/// it, then select it.
pub fn focus_pane(pane_id: &str) -> (r: Vec<Vec<String>>)
    ensures
        r.deep_view() == seq![
            seq!["switch-client"@, "-t"@, pane_id@],
            seq!["select-pane"@, "-t"@, pane_id@],
        ],
{
    let mut a: Vec<String> = Vec::new();
    a.push(String::from_str("switch-client"));
    a.push(String::from_str("-t"));
    a.push(pane_id.to_owned());
    let mut b: Vec<String> = Vec::new();
    b.push(String::from_str("select-pane"));
    b.push(String::from_str("-t"));
    b.push(pane_id.to_owned());
    let mut r: Vec<Vec<String>> = Vec::new();
    r.push(a);
    r.push(b);
    assert(r.deep_view()[0] =~= seq!["switch-client"@, "-t"@, pane_id@]);
    assert(r.deep_view()[1] =~= seq!["select-pane"@, "-t"@, pane_id@]);
    assert(r.deep_view() =~= seq![
        seq!["switch-client"@, "-t"@, pane_id@],
        seq!["select-pane"@, "-t"@, pane_id@],
    ]);
    r
}

/// The tmux command line that types `text` into a pane WITHOUT pressing
/// Enter: the user reviews it there and launches it. `-l` sends the text
/// literally, so that it is not read as key names.
pub fn send_text(pane_id: &str, text: &str) -> (r: Vec<String>)
    ensures
        r.deep_view() == seq!["send-keys"@, "-t"@, pane_id@, "-l"@, text@],
{
    let mut a: Vec<String> = Vec::new();
    a.push(String::from_str("send-keys"));
    a.push(String::from_str("-t"));
    a.push(pane_id.to_owned());
    a.push(String::from_str("-l"));
    a.push(text.to_owned());
    assert(a.deep_view() =~= seq!["send-keys"@, "-t"@, pane_id@, "-l"@, text@]);
    a
}

} // verus!

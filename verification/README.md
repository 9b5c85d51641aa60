# ckan

A kanban board in the terminal for following several coding agent sessions
spread over tmux panes. Three columns (TODO: prompts not launched yet; IN
PROGRESS; WAITING) cross six swimlanes that the user assigns; each pane moves
between columns with the real state of its session, read from its title.

## Layout

- `src/` is the verified library (Verus):
  - `store.rs`: the persistent board (lane names and painting order,
    prompts, per-pane lanes and notes), its repair on load, labels and
    durations;
  - `strmap.rs`: the string-keyed map behind the per-pane data;
  - `tmux.rs`: recognising agent panes in `tmux list-panes` output and the
    command lines that focus a pane or type into it;
  - `app.rs`: the board in memory, navigation and the actions on cards;
  - `keys.rs`: what each key does in each mode;
  - `board.rs`, `cards.rs`: which lanes show, how tall they are, how text
    wraps, and what each card and heading says;
  - `sorting.rs`, `text.rs`: stable sorting by key and string helpers.
- `app/` is the program around it: the terminal (crossterm, ratatui), the
  tmux processes, the state file (serde), the main loop that hands keys and
  pane lists to the library and carries out the work it asks for.
- `tests/`: tests of the library on concrete values.

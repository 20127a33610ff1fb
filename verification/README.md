# ttop

A tmux-aware process tree with `top`-style CPU and memory views: sessions
are tabs, each window a process tree sorted by CPU or memory, busiest first.
Navigate, filter, fold windows and signal processes from any pane.

The library under `src/` is written in Verus. Each public function states
what it returns in its `ensures` clause, over a mathematical model of the
data (`Seq`, `Map`, views of the library's types), and Verus proves the
code against it.

- `text`: white space, trimming, splitting, line breaking, decimal numbers
  and substring search on characters.
- `tmux`: the session, window and pane structure read from tmux's output.
- `model`: the session tree built from the process table, each process in
  the window of its nearest pane-root ancestor.
- `order`: a stable sort of positions by integer keys.
- `rows`: the visible rows of a session, with filter, sort order and folds.
- `tree`: what a window's process forest shows, each shown process once.
- `fold`: folding a window and unfolding it again.
- `app`: the viewer state machine: keys, refreshes, kill requests, status.
- `ui`: byte sizes, truncated command lines, column widths, highlights.

`app/` holds the program around it: the terminal loop, running tmux,
reading the process table with `sysinfo`, sending signals, and drawing with
`ratatui`. `tests/` holds the tests.

//! The tmux session/window/pane structure, read from the text that
//! `tmux display-message`, `list-sessions` and `list-panes` print.

use vstd::prelude::*;

use crate::text::{
    chars_of, decimal, is_ws, lemma_decimal_digits, lemma_parse_decimal, lemma_split_join,
    lemma_split_piece, lines, lines_of, parse_u32, parse_u32_chars, split, split_chars, string_of,
    strip_cr, trim, trim_end, trim_start, trimmed, views,
};

verus! {

/// A single tmux pane and the window/session it belongs to.
pub struct Pane {
    pub session: String,
    pub window_index: u32,
    pub window_name: String,
    pub window_active: bool,
    /// PID of the process tmux started in the pane (its shell, usually).
    pub pane_pid: u32,
}

pub struct PaneView {
    pub session: Seq<char>,
    pub window_index: u32,
    pub window_name: Seq<char>,
    pub window_active: bool,
    pub pane_pid: u32,
}

impl View for Pane {
    type V = PaneView;

    open spec fn view(&self) -> PaneView {
        PaneView {
            session: self.session@,
            window_index: self.window_index,
            window_name: self.window_name@,
            window_active: self.window_active,
            pane_pid: self.pane_pid,
        }
    }
}

/// The full tmux structure plus which session is currently focused.
pub struct TmuxInfo {
    pub panes: Vec<Pane>,
    /// Session names in tmux's own order.
    pub sessions: Vec<String>,
    pub current_session: Option<String>,
}

pub struct TmuxInfoView {
    pub panes: Seq<PaneView>,
    pub sessions: Seq<Seq<char>>,
    pub current_session: Option<Seq<char>>,
}

pub open spec fn pane_views(p: Seq<Pane>) -> Seq<PaneView> {
    p.map_values(|x: Pane| x@)
}

pub open spec fn string_views(s: Seq<String>) -> Seq<Seq<char>> {
    s.map_values(|x: String| x@)
}

pub open spec fn opt_view(o: Option<String>) -> Option<Seq<char>> {
    match o {
        Some(s) => Some(s@),
        None => None,
    }
}

impl View for TmuxInfo {
    type V = TmuxInfoView;

    open spec fn view(&self) -> TmuxInfoView {
        TmuxInfoView {
            panes: pane_views(self.panes@),
            sessions: string_views(self.sessions@),
            current_session: opt_view(self.current_session),
        }
    }
}

/// A trimmed, non-empty session name read from one line of output.
pub open spec fn session_of_line(l: Seq<char>) -> Option<Seq<char>> {
    let t = trim(l);
    if t.len() == 0 {
        None
    } else {
        Some(t)
    }
}

/// The pane described by one tab-separated line of `list-panes` output:
/// at least five fields, the fifth a PID; an index that does not parse
/// reads as 0, and the window is active when its flag reads `1`.
pub open spec fn pane_of_line(l: Seq<char>) -> Option<PaneView> {
    let f = split(l, '\t');
    if f.len() < 5 {
        None
    } else {
        match parse_u32(trim(f[4])) {
            None => None,
            Some(pid) => Some(
                PaneView {
                    session: f[0],
                    window_index: match parse_u32(trim(f[1])) {
                        Some(x) => x,
                        None => 0,
                    },
                    window_name: f[2],
                    window_active: trim(f[3]) == seq!['1'],
                    pane_pid: pid,
                },
            ),
        }
    }
}

/// What the three tmux queries say, given their outputs; `current` is `None`
/// where `display-message` failed.
pub open spec fn tmux_info_of(
    current: Option<Seq<char>>,
    sessions_out: Seq<char>,
    panes_out: Seq<char>,
) -> TmuxInfoView {
    TmuxInfoView {
        panes: lines(panes_out).filter_map(|l: Seq<char>| pane_of_line(l)),
        sessions: lines(sessions_out).filter_map(|l: Seq<char>| session_of_line(l)),
        current_session: match current {
            Some(c) => session_of_line(c),
            None => None,
        },
    }
}

pub open spec fn opt_str_view(o: Option<&str>) -> Option<Seq<char>> {
    match o {
        Some(s) => Some(s@),
        None => None,
    }
}

fn session_line(l: &Vec<char>) -> (r: Option<String>)
    ensures
        opt_view(r) == session_of_line(l@),
{
    let t = trimmed(l, 0, l.len());
    proof {
        assert(l@.subrange(0, l@.len() as int) =~= l@);
    }
    if t.len() == 0 {
        None
    } else {
        Some(string_of(&t, 0, t.len()))
    }
}

fn pane_line(l: &Vec<char>) -> (r: Option<Pane>)
    ensures
        match r {
            Some(p) => pane_of_line(l@) == Some(p@),
            None => pane_of_line(l@) is None,
        },
{
    let f = split_chars(l, '\t');
    proof {
        assert(views(f@).len() == f@.len());
    }
    if f.len() < 5 {
        return None;
    }
    proof {
        assert forall|k: int| 0 <= k < f@.len() implies views(f@)[k] == f@[k]@ by {}
    }
    let pid_field = trimmed(&f[4], 0, f[4].len());
    proof {
        assert(f@[4]@.subrange(0, f@[4]@.len() as int) =~= f@[4]@);
    }
    let pid = match parse_u32_chars(&pid_field) {
        Some(p) => p,
        None => return None,
    };
    let idx_field = trimmed(&f[1], 0, f[1].len());
    proof {
        assert(f@[1]@.subrange(0, f@[1]@.len() as int) =~= f@[1]@);
    }
    let window_index = match parse_u32_chars(&idx_field) {
        Some(x) => x,
        None => 0,
    };
    let flag = trimmed(&f[3], 0, f[3].len());
    proof {
        assert(f@[3]@.subrange(0, f@[3]@.len() as int) =~= f@[3]@);
    }
    let window_active = flag.len() == 1 && flag[0] == '1';
    proof {
        if window_active {
            assert(flag@ =~= seq!['1']);
        } else if flag@.len() == 1 {
            assert(flag@[0] != seq!['1'][0]);
        }
    }
    let session = string_of(&f[0], 0, f[0].len());
    let window_name = string_of(&f[2], 0, f[2].len());
    proof {
        assert(f@[0]@.subrange(0, f@[0]@.len() as int) =~= f@[0]@);
        assert(f@[2]@.subrange(0, f@[2]@.len() as int) =~= f@[2]@);
    }
    Some(Pane { session, window_index, window_name, window_active, pane_pid: pid })
}

/// Reads the tmux structure from the output of the three tmux queries:
/// `current_out` is what `display-message -p '#{session_name}'` printed
/// (`None` where it failed), `sessions_out` the output of `list-sessions`,
/// `panes_out` that of `list-panes -a` with tab-separated fields.
pub fn query(current_out: Option<&str>, sessions_out: &str, panes_out: &str) -> (info: TmuxInfo)
    ensures
        info@ == tmux_info_of(opt_str_view(current_out), sessions_out@, panes_out@),
{
    let current_session = match current_out {
        Some(c) => {
            let cv = chars_of(c);
            session_line(&cv)
        },
        None => None,
    };

    let sv = chars_of(sessions_out);
    let sl = lines_of(&sv);
    let ghost sf = |l: Seq<char>| session_of_line(l);
    let mut sessions: Vec<String> = Vec::new();
    let mut i: usize = 0;
    while i < sl.len()
        invariant
            0 <= i <= sl.len(),
            views(sl@) == lines(sv@),
            sf == (|l: Seq<char>| session_of_line(l)),
            string_views(sessions@) == views(sl@).take(i as int).filter_map(sf),
        decreases sl.len() - i,
    {
        let r = session_line(&sl[i]);
        proof {
            assert(views(sl@).take(i + 1).drop_last() =~= views(sl@).take(i as int));
            assert(views(sl@).take(i + 1).last() == sl@[i as int]@);
        }
        match r {
            Some(s) => {
                let ghost before = string_views(sessions@);
                sessions.push(s);
                proof {
                    assert(string_views(sessions@) =~= before + seq![s@]);
                }
            },
            None => {},
        }
        i += 1;
    }
    proof {
        assert(views(sl@).take(sl.len() as int) =~= views(sl@));
    }

    let pv = chars_of(panes_out);
    let pl = lines_of(&pv);
    let ghost pf = |l: Seq<char>| pane_of_line(l);
    let mut panes: Vec<Pane> = Vec::new();
    let mut j: usize = 0;
    while j < pl.len()
        invariant
            0 <= j <= pl.len(),
            views(pl@) == lines(pv@),
            pf == (|l: Seq<char>| pane_of_line(l)),
            pane_views(panes@) == views(pl@).take(j as int).filter_map(pf),
        decreases pl.len() - j,
    {
        let r = pane_line(&pl[j]);
        proof {
            assert(views(pl@).take(j + 1).drop_last() =~= views(pl@).take(j as int));
            assert(views(pl@).take(j + 1).last() == pl@[j as int]@);
        }
        match r {
            Some(p) => {
                let ghost before = pane_views(panes@);
                let ghost pview = p@;
                panes.push(p);
                proof {
                    assert(pane_views(panes@) =~= before + seq![pview]);
                }
            },
            None => {},
        }
        j += 1;
    }
    proof {
        assert(views(pl@).take(pl.len() as int) =~= views(pl@));
    }
    TmuxInfo { panes, sessions, current_session }
}

/// The `list-panes` line that tmux prints for a pane: session name,
/// window index, window name, active flag (`1` or `0`) and pane PID,
/// separated by tabs.
pub open spec fn printed_pane_line(p: PaneView) -> Seq<char> {
    let tab = seq!['\t'];
    p.session + tab + decimal(p.window_index as nat) + tab + p.window_name + tab + (if p.window_active {
        seq!['1']
    } else {
        seq!['0']
    }) + tab + decimal(p.pane_pid as nat)
}

/// A `list-panes` line reads back as the pane it describes, when the
/// session and window names hold no tab.
pub proof fn pane_line_reads_back(p: PaneView)
    requires
        forall|i: int| 0 <= i < p.session.len() ==> #[trigger] p.session[i] != '\t',
        forall|i: int| 0 <= i < p.window_name.len() ==> #[trigger] p.window_name[i] != '\t',
    ensures
        pane_of_line(printed_pane_line(p)) == Some(p),
{
    let tab = seq!['\t'];
    let di = decimal(p.window_index as nat);
    let dp = decimal(p.pane_pid as nat);
    let flag = if p.window_active {
        seq!['1']
    } else {
        seq!['0']
    };
    lemma_decimal_digits(p.window_index as nat);
    lemma_decimal_digits(p.pane_pid as nat);
    lemma_parse_decimal(p.window_index);
    lemma_parse_decimal(p.pane_pid);
    lemma_split_piece(p.session, '\t');
    lemma_split_piece(di, '\t');
    lemma_split_piece(p.window_name, '\t');
    assert forall|i: int| 0 <= i < flag.len() implies #[trigger] flag[i] != '\t' by {}
    lemma_split_piece(flag, '\t');
    lemma_split_piece(dp, '\t');
    let a = p.session;
    let b = a + tab + di;
    let c = b + tab + p.window_name;
    let d = c + tab + flag;
    let line = d + tab + dp;
    assert(printed_pane_line(p) == line);
    lemma_split_join(a, '\t', di);
    lemma_split_join(b, '\t', p.window_name);
    lemma_split_join(c, '\t', flag);
    lemma_split_join(d, '\t', dp);
    let f = split(line, '\t');
    assert(f =~= seq![a, di, p.window_name, flag, dp]);
    assert(trim(flag) == flag) by {
        assert(!is_ws(flag[0]));
        assert(trim_start(flag) == flag);
        assert(trim_end(flag) == flag);
    }
    assert((flag == seq!['1']) == p.window_active);
}

/// Outputs of one line each read back: a session list of one tmux
/// session name, a pane list of one pane line and a current session read
/// as that name (names free of tabs and line breaks, session names without
/// white space at either end).
pub proof fn tmux_outputs_read_back(name: Seq<char>, p: PaneView)
    requires
        name.len() > 0,
        !is_ws(name[0]),
        !is_ws(name.last()),
        forall|i: int| 0 <= i < name.len() ==> #[trigger] name[i] != '\n',
        forall|i: int| 0 <= i < p.session.len() ==> #[trigger] p.session[i] != '\t' && p.session[i]
            != '\n',
        forall|i: int| 0 <= i < p.window_name.len() ==> #[trigger] p.window_name[i] != '\t'
            && p.window_name[i] != '\n',
    ensures
        tmux_info_of(Some(name), name + seq!['\n'], printed_pane_line(p) + seq!['\n']) == (TmuxInfoView {
            panes: seq![p],
            sessions: seq![name],
            current_session: Some(name),
        }),
{
    pane_line_reads_back(p);
    let l = printed_pane_line(p);
    lemma_decimal_digits(p.pane_pid as nat);
    lemma_decimal_digits(p.window_index as nat);
    let tab = seq!['\t'];
    let flag = if p.window_active {
        seq!['1']
    } else {
        seq!['0']
    };
    assert forall|i: int| 0 <= i < l.len() implies #[trigger] l[i] != '\n' by {
        let a = p.session + tab;
        let b = a + decimal(p.window_index as nat) + tab;
        let c = b + p.window_name + tab;
        let d = c + flag + tab;
        assert(l =~= d + decimal(p.pane_pid as nat));
        if i >= d.len() {
            assert(l[i] == decimal(p.pane_pid as nat)[i - d.len()]);
        } else if i >= c.len() {
            assert(l[i] == d[i]);
        } else if i >= b.len() {
            assert(l[i] == c[i]);
        } else if i >= a.len() {
            assert(l[i] == b[i]);
        } else {
            assert(l[i] == a[i]);
        }
    }
    assert(l.last() == decimal(p.pane_pid as nat).last());
    lemma_split_piece(l, '\n');
    lemma_split_join(l, '\n', Seq::<char>::empty());
    assert(l + seq!['\n'] + Seq::<char>::empty() =~= l + seq!['\n']);
    assert(split(Seq::<char>::empty(), '\n') == seq![Seq::<char>::empty()]);
    let lp = lines(l + seq!['\n']);
    assert((l + seq!['\n']).last() == '\n');
    assert(strip_cr(l) == l);
    assert(lp =~= seq![l]);
    lemma_split_piece(name, '\n');
    lemma_split_join(name, '\n', Seq::<char>::empty());
    assert(name + seq!['\n'] + Seq::<char>::empty() =~= name + seq!['\n']);
    assert((name + seq!['\n']).last() == '\n');
    assert(name[name.len() - 1] != '\n');
    assert(strip_cr(name) == name);
    let ls = lines(name + seq!['\n']);
    assert(ls =~= seq![name]);
    assert(trim_start(name) == name);
    assert(trim_end(name) == name);
    assert(session_of_line(name) == Some(name));
    Seq::lemma_filter_map_singleton(l, |x: Seq<char>| pane_of_line(x));
    Seq::lemma_filter_map_singleton(name, |x: Seq<char>| session_of_line(x));
}

} // verus!

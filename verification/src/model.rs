//! Fold the process table into the tmux session tree: every process goes to
//! the window of its nearest pane-root ancestor.

use std::collections::HashMap;

use vstd::prelude::*;

use crate::order::{before, in_bounds, sort_positions};
use crate::tmux::{pane_views, string_views, Pane, PaneView, TmuxInfo, TmuxInfoView};

verus! {

broadcast use vstd::std_specs::hash::group_hash_axioms;

/// Where the `f32` with bit pattern `bits` stands in numeric order: on
/// numbers a larger result is a larger number, and `0.0` and `-0.0` stand
/// together. Positive patterns keep their order above 2^31; a negative
/// pattern with a larger magnitude stands lower. A NaN, which compares
/// equal to everything, gets a place of its own: above infinity when its
/// sign bit is clear, below minus infinity when it is set.
pub open spec fn cpu_order(bits: u32) -> nat {
    if bits < 0x8000_0000 {
        (bits + 0x8000_0000) as nat
    } else {
        (0x1_0000_0000 - bits) as nat
    }
}

/// One process as the process table reports it. `cpu` is the CPU usage,
/// an `f32`, by its bit pattern (see `cpu_order`).
pub struct ProcessEntry {
    pub pid: u32,
    pub parent: Option<u32>,
    pub cpu: u32,
    pub mem: u64,
    pub command: String,
}

pub struct ProcessEntryView {
    pub pid: u32,
    pub parent: Option<u32>,
    pub cpu: u32,
    pub mem: u64,
    pub command: Seq<char>,
}

impl View for ProcessEntry {
    type V = ProcessEntryView;

    open spec fn view(&self) -> ProcessEntryView {
        ProcessEntryView {
            pid: self.pid,
            parent: self.parent,
            cpu: self.cpu,
            mem: self.mem,
            command: self.command@,
        }
    }
}

/// A single process attached to a tmux pane. `cpu` is the bit pattern of
/// its `f32` CPU usage; `ppid` is 0 where it has no parent.
pub struct Proc {
    pub pid: u32,
    pub ppid: u32,
    pub cpu: u32,
    pub mem: u64,
    pub command: String,
}

pub struct ProcView {
    pub pid: u32,
    pub ppid: u32,
    pub cpu: u32,
    pub mem: u64,
    pub command: Seq<char>,
}

impl View for Proc {
    type V = ProcView;

    open spec fn view(&self) -> ProcView {
        ProcView {
            pid: self.pid,
            ppid: self.ppid,
            cpu: self.cpu,
            mem: self.mem,
            command: self.command@,
        }
    }
}

impl Proc {
    /// A copy of this process.
    pub fn duplicate(&self) -> (r: Proc)
        ensures
            r@ == self@,
    {
        Proc {
            pid: self.pid,
            ppid: self.ppid,
            cpu: self.cpu,
            mem: self.mem,
            command: self.command.clone(),
        }
    }
}

/// A tmux window with all the processes running across its panes.
pub struct Window {
    pub index: u32,
    pub name: String,
    pub active: bool,
    pub procs: Vec<Proc>,
}

pub struct WindowView {
    pub index: u32,
    pub name: Seq<char>,
    pub active: bool,
    pub procs: Seq<ProcView>,
}

pub open spec fn proc_views(p: Seq<Proc>) -> Seq<ProcView> {
    p.map_values(|x: Proc| x@)
}

impl View for Window {
    type V = WindowView;

    open spec fn view(&self) -> WindowView {
        WindowView {
            index: self.index,
            name: self.name@,
            active: self.active,
            procs: proc_views(self.procs@),
        }
    }
}

/// A tmux session and its windows.
pub struct Session {
    pub name: String,
    pub current: bool,
    pub windows: Vec<Window>,
}

pub struct SessionView {
    pub name: Seq<char>,
    pub current: bool,
    pub windows: Seq<WindowView>,
}

pub open spec fn window_views(w: Seq<Window>) -> Seq<WindowView> {
    w.map_values(|x: Window| x@)
}

impl View for Session {
    type V = SessionView;

    open spec fn view(&self) -> SessionView {
        SessionView { name: self.name@, current: self.current, windows: window_views(self.windows@) }
    }
}

pub open spec fn session_views(s: Seq<Session>) -> Seq<SessionView> {
    s.map_values(|x: Session| x@)
}

pub open spec fn entry_views(p: Seq<ProcessEntry>) -> Seq<ProcessEntryView> {
    p.map_values(|x: ProcessEntry| x@)
}

/// No two entries share a PID.
pub open spec fn unique_pids(procs: Seq<ProcessEntryView>) -> bool {
    forall|i: int, j: int|
        0 <= i < procs.len() && 0 <= j < procs.len() && i != j ==> #[trigger] procs[i].pid
            != #[trigger] procs[j].pid
}

/// The entry with PID `pid`, if any.
pub open spec fn find_entry(procs: Seq<ProcessEntryView>, pid: u32) -> Option<int>
    decreases procs.len(),
{
    if procs.len() == 0 {
        None
    } else if procs.last().pid == pid {
        Some(procs.len() - 1)
    } else {
        find_entry(procs.drop_last(), pid)
    }
}

/// The parent PID that the table gives for `pid`.
pub open spec fn parent_of(procs: Seq<ProcessEntryView>, pid: u32) -> Option<u32> {
    match find_entry(procs, pid) {
        Some(i) => procs[i].parent,
        None => None,
    }
}

/// The `k`-th ancestor of `pid` (`pid` itself for `k == 0`), following the
/// parent links of the table.
pub open spec fn ancestor(procs: Seq<ProcessEntryView>, pid: u32, k: nat) -> Option<u32>
    decreases k,
{
    if k == 0 {
        Some(pid)
    } else {
        match ancestor(procs, pid, (k - 1) as nat) {
            Some(c) => parent_of(procs, c),
            None => None,
        }
    }
}

/// The last pane whose root process is `pid`.
pub open spec fn pane_of_pid(panes: Seq<PaneView>, pid: u32) -> Option<int>
    decreases panes.len(),
{
    if panes.len() == 0 {
        None
    } else if panes.last().pane_pid == pid {
        Some(panes.len() - 1)
    } else {
        pane_of_pid(panes.drop_last(), pid)
    }
}

/// A window is named by its session and its index.
pub open spec fn window_key(p: PaneView) -> (Seq<char>, u32) {
    (p.session, p.window_index)
}

/// How many steps up the parent chain are searched for a pane root.
pub open spec fn max_hops() -> nat {
    128
}

/// The window of the nearest pane root among the ancestors `k..=128` of `pid`.
pub open spec fn home_from(
    procs: Seq<ProcessEntryView>,
    panes: Seq<PaneView>,
    pid: u32,
    k: nat,
) -> Option<(Seq<char>, u32)>
    decreases max_hops() + 1 - k,
{
    if k > max_hops() {
        None
    } else {
        match ancestor(procs, pid, k) {
            None => None,
            Some(c) => match pane_of_pid(panes, c) {
                Some(j) => Some(window_key(panes[j])),
                None => home_from(procs, panes, pid, k + 1),
            },
        }
    }
}

/// The window that process `pid` belongs to: that of its nearest ancestor
/// (itself included, at most 128 steps up) that is the root of a pane.
pub open spec fn home(procs: Seq<ProcessEntryView>, panes: Seq<PaneView>, pid: u32) -> Option<
    (Seq<char>, u32),
> {
    home_from(procs, panes, pid, 0)
}

/// The process row made from a table entry.
pub open spec fn proc_of(e: ProcessEntryView) -> ProcView {
    ProcView {
        pid: e.pid,
        ppid: match e.parent {
            Some(p) => p,
            None => 0,
        },
        cpu: e.cpu,
        mem: e.mem,
        command: e.command,
    }
}

/// The process row of `e` if it belongs to window `key`.
pub open spec fn assign(
    procs: Seq<ProcessEntryView>,
    panes: Seq<PaneView>,
    key: (Seq<char>, u32),
    e: ProcessEntryView,
) -> Option<ProcView> {
    if home(procs, panes, e.pid) == Some(key) {
        Some(proc_of(e))
    } else {
        None
    }
}

/// The processes of window `key`, in table order.
pub open spec fn window_procs(
    procs: Seq<ProcessEntryView>,
    panes: Seq<PaneView>,
    key: (Seq<char>, u32),
) -> Seq<ProcView> {
    procs.filter_map(|e: ProcessEntryView| assign(procs, panes, key, e))
}

/// The first pane of window `key`.
pub open spec fn first_pane(panes: Seq<PaneView>, key: (Seq<char>, u32)) -> Option<int>
    decreases panes.len(),
{
    if panes.len() == 0 {
        None
    } else {
        match first_pane(panes.drop_last(), key) {
            Some(j) => Some(j),
            None => if window_key(panes.last()) == key {
                Some(panes.len() - 1)
            } else {
                None
            },
        }
    }
}

/// Some pane of session `s` is in a window with index `x`.
pub open spec fn has_window(panes: Seq<PaneView>, s: Seq<char>, x: u32) -> bool {
    exists|j: int| 0 <= j < panes.len() && #[trigger] window_key(panes[j]) == (s, x)
}

/// The windows of session number `i` of `info`, as `build_sessions` lists
/// them: one per window index of the session's panes, by increasing index,
/// named and flagged as the window's first pane says, holding the
/// window's processes (none where the same session name came earlier).
pub open spec fn windows_ok(
    procs: Seq<ProcessEntryView>,
    info: TmuxInfoView,
    i: int,
    ws: Seq<WindowView>,
) -> bool {
    let s = info.sessions[i];
    let panes = info.panes;
    let repeated = exists|k: int| 0 <= k < i && #[trigger] info.sessions[k] == s;
    &&& forall|a: int, b: int| 0 <= a < b < ws.len() ==> #[trigger] ws[a].index < #[trigger] ws[b].index
    &&& forall|j: int| 0 <= j < panes.len() && panes[j].session == s ==> exists|a: int|
        0 <= a < ws.len() && #[trigger] ws[a].index == panes[j].window_index
    &&& forall|a: int|
        0 <= a < ws.len() ==> {
            let w = #[trigger] ws[a];
            &&& has_window(panes, s, w.index)
            &&& first_pane(panes, (s, w.index)) matches Some(j) && w.name == panes[j].window_name
                && w.active == panes[j].window_active
            &&& w.procs == if repeated {
                Seq::<ProcView>::empty()
            } else {
                window_procs(procs, panes, (s, w.index))
            }
        }
}

/// The session tree that `build_sessions` returns.
pub open spec fn sessions_ok(
    procs: Seq<ProcessEntryView>,
    info: TmuxInfoView,
    out: Seq<SessionView>,
) -> bool {
    &&& out.len() == info.sessions.len()
    &&& forall|i: int|
        0 <= i < out.len() ==> {
            &&& #[trigger] out[i].name == info.sessions[i]
            &&& out[i].current == (info.current_session == Some(info.sessions[i]))
            &&& windows_ok(procs, info, i, out[i].windows)
        }
}

/// The window named by table row `m` of `metas` (a pane index).
pub open spec fn meta_key(panes: Seq<PaneView>, metas: Seq<usize>, m: int) -> (Seq<char>, u32) {
    window_key(panes[metas[m] as int])
}

/// `metas` lists the first pane of each window once; `owner` maps each
/// pane-root PID to the row of the window of its last pane.
pub open spec fn window_table_ok(
    panes: Seq<PaneView>,
    metas: Seq<usize>,
    owner: Map<u32, usize>,
) -> bool {
    &&& forall|m: int| 0 <= m < metas.len() ==> #[trigger] metas[m] < panes.len()
    &&& forall|m: int|
        0 <= m < metas.len() ==> first_pane(panes, meta_key(panes, metas, m)) == Some(
            #[trigger] metas[m] as int,
        )
    &&& forall|m1: int, m2: int|
        0 <= m1 < metas.len() && 0 <= m2 < metas.len() && m1 != m2 ==> #[trigger] meta_key(
            panes,
            metas,
            m1,
        ) != #[trigger] meta_key(panes, metas, m2)
    &&& covered(panes, metas, panes.len() as int)
    &&& forall|pid: u32| #[trigger]
        owner.contains_key(pid) <==> pane_of_pid(panes, pid) is Some
    &&& forall|pid: u32|
        #[trigger] owner.contains_key(pid) ==> {
            &&& owner[pid] < metas.len()
            &&& meta_key(panes, metas, owner[pid] as int) == window_key(
                panes[pane_of_pid(panes, pid)->0],
            )
        }
}

proof fn lemma_first_pane(panes: Seq<PaneView>, j: int)
    requires
        0 <= j < panes.len(),
        forall|k: int| 0 <= k < j ==> window_key(#[trigger] panes[k]) != window_key(panes[j]),
    ensures
        first_pane(panes, window_key(panes[j])) == Some(j),
    decreases panes.len(),
{
    if j < panes.len() - 1 {
        lemma_first_pane(panes.drop_last(), j);
    } else {
        lemma_first_pane_none(panes.drop_last(), window_key(panes[j]));
    }
}

proof fn lemma_first_pane_none(panes: Seq<PaneView>, key: (Seq<char>, u32))
    requires
        forall|k: int| 0 <= k < panes.len() ==> window_key(#[trigger] panes[k]) != key,
    ensures
        first_pane(panes, key) is None,
    decreases panes.len(),
{
    if panes.len() > 0 {
        lemma_first_pane_none(panes.drop_last(), key);
    }
}

proof fn lemma_first_pane_some(panes: Seq<PaneView>, key: (Seq<char>, u32))
    ensures
        first_pane(panes, key) matches Some(j) ==> 0 <= j < panes.len() && window_key(panes[j])
            == key,
    decreases panes.len(),
{
    if panes.len() > 0 {
        lemma_first_pane_some(panes.drop_last(), key);
    }
}

proof fn lemma_pane_of_pid(panes: Seq<PaneView>, pid: u32)
    ensures
        pane_of_pid(panes, pid) matches Some(j) ==> 0 <= j < panes.len() && panes[j].pane_pid
            == pid,
    decreases panes.len(),
{
    if panes.len() > 0 {
        lemma_pane_of_pid(panes.drop_last(), pid);
    }
}

/// The row of `metas` whose window is that of pane `j`.
fn find_window(panes: &Vec<Pane>, metas: &Vec<usize>, j: usize) -> (r: Option<usize>)
    requires
        j < panes.len(),
        forall|q: int| 0 <= q < metas.len() ==> #[trigger] metas[q] < panes.len(),
    ensures
        match r {
            Some(m) => m < metas.len() && meta_key(pane_views(panes@), metas@, m as int)
                == window_key(pane_views(panes@)[j as int]),
            None => forall|q: int|
                0 <= q < metas.len() ==> #[trigger] meta_key(pane_views(panes@), metas@, q)
                    != window_key(pane_views(panes@)[j as int]),
        },
{
    let ghost pv = pane_views(panes@);
    let p = &panes[j];
    let mut m: usize = 0;
    while m < metas.len()
        invariant
            0 <= m <= metas.len(),
            j < panes.len(),
            pv == pane_views(panes@),
            p == panes@[j as int],
            forall|q: int| 0 <= q < metas.len() ==> #[trigger] metas[q] < panes.len(),
            forall|q: int|
                0 <= q < m ==> #[trigger] meta_key(pv, metas@, q) != window_key(pv[j as int]),
        decreases metas.len() - m,
    {
        let q = &panes[metas[m]];
        proof {
            assert(pv[metas[m as int] as int] == q@);
            assert(pv[j as int] == p@);
        }
        if q.window_index == p.window_index && q.session == p.session {
            return Some(m);
        }
        m += 1;
    }
    None
}

/// Every pane before `j` has its window in `metas`.
pub open spec fn covered(panes: Seq<PaneView>, metas: Seq<usize>, j: int) -> bool {
    forall|k: int|
        #![trigger panes[k]]
        0 <= k < j ==> exists|m: int|
            0 <= m < metas.len() && #[trigger] meta_key(panes, metas, m) == window_key(panes[k])
}

/// Lists the windows (by first pane) and maps each pane root to its window.
fn window_table(panes: &Vec<Pane>) -> (r: (Vec<usize>, HashMap<u32, usize>))
    ensures
        window_table_ok(pane_views(panes@), r.0@, r.1@),
{
    let ghost pv = pane_views(panes@);
    let mut metas: Vec<usize> = Vec::new();
    let mut owner: HashMap<u32, usize> = HashMap::new();
    let mut j: usize = 0;
    while j < panes.len()
        invariant
            0 <= j <= panes.len(),
            pv == pane_views(panes@),
            forall|m: int| 0 <= m < metas.len() ==> #[trigger] metas[m] < j,
            forall|m: int, k: int|
                0 <= m < metas.len() && 0 <= k < metas[m] ==> window_key(#[trigger] pv[k])
                    != #[trigger] meta_key(pv, metas@, m),
            forall|m1: int, m2: int|
                0 <= m1 < metas.len() && 0 <= m2 < metas.len() && m1 != m2 ==> #[trigger] meta_key(
                    pv,
                    metas@,
                    m1,
                ) != #[trigger] meta_key(pv, metas@, m2),
            covered(pv, metas@, j as int),
            forall|pid: u32| #[trigger]
                owner@.contains_key(pid) <==> pane_of_pid(pv.take(j as int), pid) is Some,
            forall|pid: u32|
                #[trigger] owner@.contains_key(pid) ==> {
                    &&& owner@[pid] < metas.len()
                    &&& meta_key(pv, metas@, owner@[pid] as int) == window_key(
                        pv[pane_of_pid(pv.take(j as int), pid)->0],
                    )
                },
        decreases panes.len() - j,
    {
        let p = &panes[j];
        let fm = find_window(panes, &metas, j);
        let found = fm.is_some();
        let m: usize = match fm {
            Some(x) => x,
            None => 0,
        };
        proof {
            assert(pv[j as int] == p@);
        }
        let ghost old_metas = metas@;
        if !found {
            proof {
                assert forall|k: int| 0 <= k < j implies window_key(#[trigger] pv[k]) != window_key(pv[j as int]) by {
                    let mm = choose|mm: int| 0 <= mm < metas.len() && #[trigger] meta_key(pv, metas@, mm) == window_key(pv[k]);
                    assert(meta_key(pv, metas@, mm) != window_key(pv[j as int]));
                }
            }
            metas.push(j);
            proof {
                assert forall|q: int| 0 <= q < old_metas.len() implies #[trigger] meta_key(pv, metas@, q) == meta_key(pv, old_metas, q) by {}
            }
        } else {
            proof {
                assert(meta_key(pv, metas@, m as int) == window_key(pv[j as int]));
            }
        }
        let ghost mpos: int = if found { m as int } else { old_metas.len() as int };
        proof {
            assert(meta_key(pv, metas@, mpos) == window_key(pv[j as int]));
        }
        let mp: usize = if found { m } else { metas.len() - 1 };
        owner.insert(p.pane_pid, mp);
        proof {
            assert(pv.take(j + 1).drop_last() =~= pv.take(j as int));
            assert(pv.take(j + 1).last() == pv[j as int]);
            lemma_pane_of_pid(pv.take(j as int), p.pane_pid);
            assert forall|pid: u32| #[trigger] owner@.contains_key(pid) implies {
                &&& owner@[pid] < metas.len()
                &&& meta_key(pv, metas@, owner@[pid] as int) == window_key(
                    pv[pane_of_pid(pv.take(j + 1), pid)->0],
                )
            } by {
                if pid != p.pane_pid {
                    lemma_pane_of_pid(pv.take(j as int), pid);
                    let jj = pane_of_pid(pv.take(j as int), pid)->0;
                    assert(pv.take(j as int)[jj] == pv[jj]);
                }
            }
            assert forall|k: int| #![trigger pv[k]] 0 <= k < j + 1 implies exists|q: int|
                0 <= q < metas.len() && #[trigger] meta_key(pv, metas@, q) == window_key(pv[k]) by {
                let ghost om = old_metas;
                assert(covered(pv, om, j as int));
                if k < j {
                    let q0 = choose|q0: int| 0 <= q0 < om.len() && #[trigger] meta_key(pv, om, q0) == window_key(pv[k]);
                    assert(meta_key(pv, metas@, q0) == window_key(pv[k]));
                } else {
                    assert(meta_key(pv, metas@, mpos) == window_key(pv[k]));
                }
            }
        }
        j += 1;
    }
    proof {
        assert(pv.take(j as int) =~= pv);
        assert(pv.len() == panes@.len());
        assert(j == pv.len());
        assert(covered(pv, metas@, j as int));
        assert forall|m: int| 0 <= m < metas.len() implies first_pane(pv, meta_key(pv, metas@, m)) == Some(
            #[trigger] metas[m] as int,
        ) by {
            lemma_first_pane(pv, metas[m] as int);
        }
    }
    (metas, owner)
}

/// Maps each PID to its entry in the table.
fn pid_index(procs: &Vec<ProcessEntry>) -> (idx: HashMap<u32, usize>)
    ensures
        forall|pid: u32| #[trigger]
            idx@.contains_key(pid) <==> find_entry(entry_views(procs@), pid) is Some,
        forall|pid: u32| #[trigger]
            idx@.contains_key(pid) ==> idx@[pid] as int == find_entry(entry_views(procs@), pid)->0,
{
    let ghost ev = entry_views(procs@);
    let mut idx: HashMap<u32, usize> = HashMap::new();
    let mut i: usize = 0;
    while i < procs.len()
        invariant
            0 <= i <= procs.len(),
            ev == entry_views(procs@),
            forall|pid: u32| #[trigger]
                idx@.contains_key(pid) <==> find_entry(ev.take(i as int), pid) is Some,
            forall|pid: u32| #[trigger]
                idx@.contains_key(pid) ==> idx@[pid] as int == find_entry(ev.take(i as int), pid)->0,
        decreases procs.len() - i,
    {
        idx.insert(procs[i].pid, i);
        proof {
            assert(ev.take(i + 1).drop_last() =~= ev.take(i as int));
            assert(ev.take(i + 1).last() == ev[i as int]);
        }
        i += 1;
    }
    proof {
        assert(ev.take(i as int) =~= ev);
    }
    idx
}

proof fn lemma_find_entry(procs: Seq<ProcessEntryView>, pid: u32)
    ensures
        find_entry(procs, pid) matches Some(i) ==> 0 <= i < procs.len() && procs[i].pid == pid,
    decreases procs.len(),
{
    if procs.len() > 0 {
        lemma_find_entry(procs.drop_last(), pid);
    }
}

/// The row of `metas` of the window that process `pid` belongs to.
fn locate(
    procs: &Vec<ProcessEntry>,
    pidx: &HashMap<u32, usize>,
    owner: &HashMap<u32, usize>,
    pid: u32,
    Ghost(panes): Ghost<Seq<PaneView>>,
    Ghost(metas): Ghost<Seq<usize>>,
) -> (r: Option<usize>)
    requires
        window_table_ok(panes, metas, owner@),
        forall|p: u32| #[trigger]
            pidx@.contains_key(p) <==> find_entry(entry_views(procs@), p) is Some,
        forall|p: u32| #[trigger]
            pidx@.contains_key(p) ==> pidx@[p] as int == find_entry(entry_views(procs@), p)->0,
    ensures
        match r {
            Some(m) => m < metas.len() && home(entry_views(procs@), panes, pid) == Some(
                meta_key(panes, metas, m as int),
            ),
            None => home(entry_views(procs@), panes, pid) is None,
        },
{
    let ghost ev = entry_views(procs@);
    let mut cur: u32 = pid;
    let mut k: usize = 0;
    while k <= 128
        invariant
            0 <= k <= 129,
            ev == entry_views(procs@),
            ancestor(ev, pid, k as nat) == Some(cur),
            home(ev, panes, pid) == home_from(ev, panes, pid, k as nat),
            window_table_ok(panes, metas, owner@),
            forall|p: u32| #[trigger]
                pidx@.contains_key(p) <==> find_entry(ev, p) is Some,
            forall|p: u32| #[trigger]
                pidx@.contains_key(p) ==> pidx@[p] as int == find_entry(ev, p)->0,
        decreases 129 - k,
    {
        match owner.get(&cur) {
            Some(m) => {
                return Some(*m);
            },
            None => {},
        }
        proof {
            assert(pane_of_pid(panes, cur) is None);
            assert(home_from(ev, panes, pid, k as nat) == home_from(ev, panes, pid, (k + 1) as nat));
        }
        let i = match pidx.get(&cur) {
            Some(i) => *i,
            None => {
                proof {
                    assert(ancestor(ev, pid, (k + 1) as nat) is None);
                    assert(home_from(ev, panes, pid, (k + 1) as nat) is None);
                }
                return None;
            },
        };
        proof {
            lemma_find_entry(ev, cur);
        }
        match procs[i].parent {
            Some(p) => {
                proof {
                    assert(ev[i as int] == procs@[i as int]@);
                }
                cur = p;
            },
            None => {
                proof {
                    assert(ev[i as int] == procs@[i as int]@);
                    assert(ancestor(ev, pid, (k + 1) as nat) is None);
                    assert(home_from(ev, panes, pid, (k + 1) as nat) is None);
                }
                return None;
            },
        }
        k += 1;
    }
    None
}

/// The process row made from a table entry.
fn make_proc(e: &ProcessEntry) -> (p: Proc)
    ensures
        p@ == proc_of(e@),
{
    Proc {
        pid: e.pid,
        ppid: match e.parent {
            Some(q) => q,
            None => 0,
        },
        cpu: e.cpu,
        mem: e.mem,
        command: e.command.clone(),
    }
}

/// `buckets[m]` holds the processes of window row `m`, except that rows of
/// the sessions in `taken` have been emptied.
pub open spec fn buckets_ok(
    ev: Seq<ProcessEntryView>,
    panes: Seq<PaneView>,
    metas: Seq<usize>,
    buckets: Seq<Vec<Proc>>,
    taken: Seq<Seq<char>>,
) -> bool {
    &&& buckets.len() == metas.len()
    &&& forall|m: int|
        0 <= m < metas.len() ==> proc_views(#[trigger] buckets[m]@) == if taken.contains(
            meta_key(panes, metas, m).0,
        ) {
            Seq::<ProcView>::empty()
        } else {
            window_procs(ev, panes, meta_key(panes, metas, m))
        }
}

/// Sorts each process into the bucket of its window row.
fn fill_buckets(
    procs: &Vec<ProcessEntry>,
    pidx: &HashMap<u32, usize>,
    owner: &HashMap<u32, usize>,
    n: usize,
    Ghost(panes): Ghost<Seq<PaneView>>,
    Ghost(metas): Ghost<Seq<usize>>,
) -> (buckets: Vec<Vec<Proc>>)
    requires
        n == metas.len(),
        window_table_ok(panes, metas, owner@),
        forall|p: u32| #[trigger]
            pidx@.contains_key(p) <==> find_entry(entry_views(procs@), p) is Some,
        forall|p: u32| #[trigger]
            pidx@.contains_key(p) ==> pidx@[p] as int == find_entry(entry_views(procs@), p)->0,
    ensures
        buckets_ok(entry_views(procs@), panes, metas, buckets@, Seq::empty()),
{
    let ghost ev = entry_views(procs@);
    let mut buckets: Vec<Vec<Proc>> = Vec::new();
    let mut m: usize = 0;
    while m < n
        invariant
            0 <= m <= n == metas.len(),
            buckets@.len() == m,
            forall|q: int| 0 <= q < m ==> (#[trigger] buckets@[q])@.len() == 0,
        decreases n - m,
    {
        buckets.push(Vec::new());
        m += 1;
    }
    let mut i: usize = 0;
    while i < procs.len()
        invariant
            0 <= i <= procs.len(),
            ev == entry_views(procs@),
            buckets@.len() == metas.len(),
            window_table_ok(panes, metas, owner@),
            forall|p: u32| #[trigger]
                pidx@.contains_key(p) <==> find_entry(ev, p) is Some,
            forall|p: u32| #[trigger]
                pidx@.contains_key(p) ==> pidx@[p] as int == find_entry(ev, p)->0,
            forall|q: int|
                0 <= q < metas.len() ==> proc_views(#[trigger] buckets@[q]@) == ev.take(
                    i as int,
                ).filter_map(|e: ProcessEntryView| assign(ev, panes, meta_key(panes, metas, q), e)),
        decreases procs.len() - i,
    {
        let e = &procs[i];
        let r = locate(procs, pidx, owner, e.pid, Ghost(panes), Ghost(metas));
        let ghost old_b = buckets@;
        proof {
            assert(ev.take(i + 1).drop_last() =~= ev.take(i as int));
            assert(ev.take(i + 1).last() == ev[i as int]);
            assert(ev[i as int] == e@);
        }
        match r {
            Some(mm) => {
                let p = make_proc(e);
                let mut b = buckets.remove(mm);
                b.push(p);
                buckets.insert(mm, b);
                proof {
                    assert forall|q: int| 0 <= q < metas.len() implies proc_views(
                        #[trigger] buckets@[q]@,
                    ) == ev.take(i + 1).filter_map(
                        |e: ProcessEntryView| assign(ev, panes, meta_key(panes, metas, q), e),
                    ) by {
                        if q == mm {
                            assert(proc_views(buckets@[q]@) =~= proc_views(old_b[q]@) + seq![
                                proc_of(ev[i as int]),
                            ]);
                        } else {
                            assert(buckets@[q] == old_b[q]);
                            assert(meta_key(panes, metas, q) != meta_key(panes, metas, mm as int));
                        }
                    }
                }
            },
            None => {},
        }
        i += 1;
    }
    proof {
        assert(ev.take(i as int) =~= ev);
        assert forall|q: int| 0 <= q < metas.len() implies proc_views(#[trigger] buckets@[q]@)
            == window_procs(ev, panes, meta_key(panes, metas, q)) by {}
    }
    buckets
}

/// One entry per window row: its window index, the key that orders them.
fn index_keys(panes: &Vec<Pane>, metas: &Vec<usize>) -> (keys: Vec<u128>)
    requires
        forall|m: int| 0 <= m < metas.len() ==> #[trigger] metas[m] < panes.len(),
    ensures
        keys@.len() == metas@.len(),
        forall|m: int|
            0 <= m < metas.len() ==> #[trigger] keys@[m] == meta_key(pane_views(panes@), metas@, m).1
                as u128,
{
    let mut keys: Vec<u128> = Vec::new();
    let mut m: usize = 0;
    while m < metas.len()
        invariant
            0 <= m <= metas.len(),
            keys@.len() == m,
            forall|q: int| 0 <= q < metas.len() ==> #[trigger] metas[q] < panes.len(),
            forall|q: int|
                0 <= q < m ==> #[trigger] keys@[q] == meta_key(pane_views(panes@), metas@, q).1
                    as u128,
        decreases metas.len() - m,
    {
        keys.push(panes[metas[m]].window_index as u128);
        m += 1;
    }
    keys
}

/// The window rows of session `name`, in row order.
fn rows_of_session(panes: &Vec<Pane>, metas: &Vec<usize>, name: &String) -> (list: Vec<usize>)
    requires
        forall|m: int| 0 <= m < metas.len() ==> #[trigger] metas[m] < panes.len(),
    ensures
        list@.no_duplicates(),
        forall|t: int|
            0 <= t < list@.len() ==> #[trigger] list@[t] < metas.len() && meta_key(
                pane_views(panes@),
                metas@,
                list@[t] as int,
            ).0 == name@,
        forall|m: int|
            0 <= m < metas.len() && meta_key(pane_views(panes@), metas@, m).0 == name@
                ==> #[trigger] list@.contains(m as usize),
{
    let ghost pv = pane_views(panes@);
    let mut list: Vec<usize> = Vec::new();
    let mut m: usize = 0;
    while m < metas.len()
        invariant
            0 <= m <= metas.len(),
            pv == pane_views(panes@),
            forall|q: int| 0 <= q < metas.len() ==> #[trigger] metas[q] < panes.len(),
            forall|a: int, b: int| 0 <= a < b < list@.len() ==> #[trigger] list@[a] < #[trigger] list@[b],
            forall|t: int|
                0 <= t < list@.len() ==> #[trigger] list@[t] < m && meta_key(pv, metas@, list@[t] as int).0
                    == name@,
            forall|q: int|
                0 <= q < m && meta_key(pv, metas@, q).0 == name@ ==> #[trigger] list@.contains(q as usize),
        decreases metas.len() - m,
    {
        proof {
            assert(pv[metas[m as int] as int] == panes@[metas[m as int] as int]@);
        }
        if panes[metas[m]].session == *name {
            let ghost old_list = list@;
            list.push(m);
            proof {
                assert forall|q: int|
                    0 <= q < m + 1 && meta_key(pv, metas@, q).0 == name@ implies #[trigger] list@.contains(q as usize) by {
                    if q < m {
                        assert(old_list.contains(q as usize));
                        let t = choose|t: int| 0 <= t < old_list.len() && old_list[t] == q as usize;
                        assert(list@[t] == q as usize);
                    } else {
                        assert(list@[old_list.len() as int] == q as usize);
                    }
                }
            }
        }
        m += 1;
    }
    proof {
        assert forall|a: int, b: int| 0 <= a < list@.len() && 0 <= b < list@.len() && a != b implies list@[a] != list@[b] by {
            if a < b {
                assert(list@[a] < list@[b]);
            } else {
                assert(list@[b] < list@[a]);
            }
        }
    }
    list
}

/// The window of row `m`, with the processes handed in.
fn make_window(panes: &Vec<Pane>, metas: &Vec<usize>, m: usize, procs: Vec<Proc>) -> (w: Window)
    requires
        m < metas.len(),
        metas[m as int] < panes.len(),
    ensures
        w@.index == meta_key(pane_views(panes@), metas@, m as int).1,
        w@.name == pane_views(panes@)[metas[m as int] as int].window_name,
        w@.active == pane_views(panes@)[metas[m as int] as int].window_active,
        w@.procs == proc_views(procs@),
{
    let p = &panes[metas[m]];
    proof {
        assert(pane_views(panes@)[metas[m as int] as int] == p@);
    }
    Window { index: p.window_index, name: p.window_name.clone(), active: p.window_active, procs }
}

/// Builds the windows of session `name` (number `si`), taking their
/// processes out of the buckets.
fn session_windows(
    panes: &Vec<Pane>,
    metas: &Vec<usize>,
    keys: &Vec<u128>,
    buckets: &mut Vec<Vec<Proc>>,
    name: &String,
    Ghost(ev): Ghost<Seq<ProcessEntryView>>,
    Ghost(owner): Ghost<Map<u32, usize>>,
    Ghost(taken): Ghost<Seq<Seq<char>>>,
) -> (ws: Vec<Window>)
    requires
        window_table_ok(pane_views(panes@), metas@, owner),
        keys@.len() == metas@.len(),
        forall|m: int|
            0 <= m < metas.len() ==> #[trigger] keys@[m] == meta_key(pane_views(panes@), metas@, m).1
                as u128,
        buckets_ok(ev, pane_views(panes@), metas@, old(buckets)@, taken),
    ensures
        buckets_ok(ev, pane_views(panes@), metas@, final(buckets)@, taken.push(name@)),
        forall|a: int, b: int|
            0 <= a < b < ws@.len() ==> #[trigger] ws@[a]@.index < #[trigger] ws@[b]@.index,
        forall|j: int|
            0 <= j < panes@.len() && pane_views(panes@)[j].session == name@ ==> exists|a: int|
                0 <= a < ws@.len() && #[trigger] ws@[a]@.index == pane_views(panes@)[j].window_index,
        forall|a: int|
            0 <= a < ws@.len() ==> exists|m: int|
                0 <= m < metas.len() && meta_key(pane_views(panes@), metas@, m) == (
                    name@,
                    (#[trigger] ws@[a])@.index,
                ) && ws@[a]@.name == pane_views(panes@)[metas[m] as int].window_name
                    && ws@[a]@.active == pane_views(panes@)[metas[m] as int].window_active
                    && ws@[a]@.procs == if taken.contains(name@) {
                    Seq::<ProcView>::empty()
                } else {
                    window_procs(ev, pane_views(panes@), (name@, ws@[a]@.index))
                },
{
    let ghost pv = pane_views(panes@);
    let list = rows_of_session(panes, metas, name);
    proof {
        assert(in_bounds(keys@, list@));
    }
    let sorted = sort_positions(&list, keys);
    proof {
        assert forall|t: int| 0 <= t < sorted@.len() implies #[trigger] sorted@[t] < metas.len()
            && meta_key(pv, metas@, sorted@[t] as int).0 == name@ by {
            assert(sorted@.to_set().contains(sorted@[t]));
            assert(list@.to_set().contains(sorted@[t]));
            let u = choose|u: int| 0 <= u < list@.len() && list@[u] == sorted@[t];
        }
    }
    let mut ws: Vec<Window> = Vec::new();
    let mut a: usize = 0;
    while a < sorted.len()
        invariant
            0 <= a <= sorted.len(),
            pv == pane_views(panes@),
            window_table_ok(pv, metas@, owner),
            sorted@.no_duplicates(),
            forall|t: int|
                0 <= t < sorted@.len() ==> #[trigger] sorted@[t] < metas.len() && meta_key(
                    pv,
                    metas@,
                    sorted@[t] as int,
                ).0 == name@,
            ws@.len() == a,
            buckets@.len() == metas.len(),
            forall|m: int|
                0 <= m < metas.len() ==> proc_views(#[trigger] buckets@[m]@) == if taken.contains(
                    meta_key(pv, metas@, m).0,
                ) || sorted@.take(a as int).contains(m as usize) {
                    Seq::<ProcView>::empty()
                } else {
                    window_procs(ev, pv, meta_key(pv, metas@, m))
                },
            forall|t: int|
                0 <= t < a ==> {
                    let m = sorted@[t] as int;
                    &&& (#[trigger] ws@[t])@.index == meta_key(pv, metas@, m).1
                    &&& ws@[t]@.name == pv[metas[m] as int].window_name
                    &&& ws@[t]@.active == pv[metas[m] as int].window_active
                    &&& ws@[t]@.procs == if taken.contains(name@) {
                        Seq::<ProcView>::empty()
                    } else {
                        window_procs(ev, pv, meta_key(pv, metas@, m))
                    }
                },
        decreases sorted.len() - a,
    {
        let m = sorted[a];
        let ghost old_b = buckets@;
        let b = buckets.remove(m);
        buckets.insert(m, Vec::new());
        let w = make_window(panes, metas, m, b);
        ws.push(w);
        proof {
            assert(sorted@.take(a + 1) =~= sorted@.take(a as int).push(m));
            assert(!sorted@.take(a as int).contains(m)) by {
                if sorted@.take(a as int).contains(m) {
                    let u = choose|u: int| 0 <= u < a && sorted@.take(a as int)[u] == m;
                    assert(sorted@[u] == sorted@[a as int]);
                }
            }
            assert forall|q: int| 0 <= q < metas.len() implies proc_views(#[trigger] buckets@[q]@)
                == if taken.contains(meta_key(pv, metas@, q).0) || sorted@.take(a + 1).contains(
                q as usize,
            ) {
                Seq::<ProcView>::empty()
            } else {
                window_procs(ev, pv, meta_key(pv, metas@, q))
            } by {
                if q == m {
                    assert(sorted@.take(a + 1)[a as int] == m);
                    assert(sorted@.take(a + 1).contains(m));
                    assert(proc_views(buckets@[q]@) =~= Seq::<ProcView>::empty());
                } else {
                    assert(buckets@[q] == old_b[q]);
                    assert(sorted@.take(a + 1).contains(q as usize) <==> sorted@.take(
                        a as int,
                    ).contains(q as usize));
                }
            }
            assert(meta_key(pv, metas@, m as int).0 == name@);
        }
        a += 1;
    }
    proof {
        assert(sorted@.take(a as int) =~= sorted@);
        // strictly increasing indices
        assert forall|x: int, y: int| 0 <= x < y < ws@.len() implies #[trigger] ws@[x]@.index
            < #[trigger] ws@[y]@.index by {
            let mx = sorted@[x] as int;
            let my = sorted@[y] as int;
            assert(before(keys@, sorted@[x], sorted@[y]));
            if keys@[mx] == keys@[my] {
                assert(meta_key(pv, metas@, mx) == meta_key(pv, metas@, my));
                assert(sorted@[x] != sorted@[y]);
            }
        }
        // every pane of the session has its window listed
        assert forall|j: int|
            0 <= j < panes@.len() && pv[j].session == name@ implies exists|t: int|
                0 <= t < ws@.len() && #[trigger] ws@[t]@.index == pv[j].window_index by {
            assert(covered(pv, metas@, pv.len() as int));
            assert(pv[j] == pv[j]);
            let m = choose|m: int| 0 <= m < metas.len() && #[trigger] meta_key(pv, metas@, m) == window_key(pv[j]);
            assert(list@.contains(m as usize));
            assert(list@.to_set().contains(m as usize));
            assert(sorted@.to_set().contains(m as usize));
            let t = choose|t: int| 0 <= t < sorted@.len() && sorted@[t] == m as usize;
            assert(ws@[t]@.index == pv[j].window_index);
        }
        assert forall|t: int| 0 <= t < ws@.len() implies exists|m: int|
                0 <= m < metas.len() && meta_key(pv, metas@, m) == (
                    name@,
                    (#[trigger] ws@[t])@.index,
                ) && ws@[t]@.name == pv[metas[m] as int].window_name
                    && ws@[t]@.active == pv[metas[m] as int].window_active
                    && ws@[t]@.procs == if taken.contains(name@) {
                    Seq::<ProcView>::empty()
                } else {
                    window_procs(ev, pv, (name@, ws@[t]@.index))
                } by {
            let m = sorted@[t] as int;
            assert(meta_key(pv, metas@, m) == (name@, ws@[t]@.index));
        }
        // the buckets of this session are now empty
        assert forall|m: int| 0 <= m < metas.len() implies proc_views(#[trigger] buckets@[m]@)
            == if taken.push(name@).contains(meta_key(pv, metas@, m).0) {
            Seq::<ProcView>::empty()
        } else {
            window_procs(ev, pv, meta_key(pv, metas@, m))
        } by {
            let s = meta_key(pv, metas@, m).0;
            assert(taken.push(name@).contains(s) <==> taken.contains(s) || s == name@) by {
                if taken.push(name@).contains(s) {
                    let u = choose|u: int| 0 <= u < taken.len() + 1 && taken.push(name@)[u] == s;
                    if u < taken.len() {
                        assert(taken[u] == s);
                    }
                }
                if taken.contains(s) {
                    let u = choose|u: int| 0 <= u < taken.len() && taken[u] == s;
                    assert(taken.push(name@)[u] == s);
                }
                if s == name@ {
                    assert(taken.push(name@)[taken.len() as int] == s);
                }
            }
            if s == name@ {
                assert(list@.contains(m as usize));
                assert(list@.to_set().contains(m as usize));
                assert(sorted@.to_set().contains(m as usize));
            }
        }
    }
    ws
}

/// Builds the session tree: every process of the table goes to the window
/// of its nearest ancestor (itself included, at most 128 steps up the
/// parent chain) that is the root process of a tmux pane; processes with
/// no such ancestor are left out. Sessions come in tmux's order, their
/// windows by increasing index.
pub fn build_sessions(procs: &Vec<ProcessEntry>, info: &TmuxInfo) -> (out: Vec<Session>)
    ensures
        sessions_ok(entry_views(procs@), info@, session_views(out@)),
{
    let ghost ev = entry_views(procs@);
    let ghost pv = pane_views(info.panes@);
    let ghost sv = string_views(info.sessions@);
    let (metas, owner) = window_table(&info.panes);
    let pidx = pid_index(procs);
    let mut buckets = fill_buckets(procs, &pidx, &owner, metas.len(), Ghost(pv), Ghost(metas@));
    let keys = index_keys(&info.panes, &metas);
    let mut out: Vec<Session> = Vec::new();
    let mut si: usize = 0;
    proof {
        assert(sv.take(0) =~= Seq::<Seq<char>>::empty());
    }
    while si < info.sessions.len()
        invariant
            0 <= si <= info.sessions.len(),
            ev == entry_views(procs@),
            pv == pane_views(info.panes@),
            sv == string_views(info.sessions@),
            window_table_ok(pv, metas@, owner@),
            keys@.len() == metas@.len(),
            forall|m: int|
                0 <= m < metas.len() ==> #[trigger] keys@[m] == meta_key(pv, metas@, m).1 as u128,
            buckets_ok(ev, pv, metas@, buckets@, sv.take(si as int)),
            out@.len() == si,
            forall|i: int|
                0 <= i < si ==> {
                    &&& (#[trigger] out@[i])@.name == info@.sessions[i]
                    &&& out@[i]@.current == (info@.current_session == Some(info@.sessions[i]))
                    &&& windows_ok(ev, info@, i, out@[i]@.windows)
                },
        decreases info.sessions.len() - si,
    {
        let name = &info.sessions[si];
        proof {
            assert(sv[si as int] == name@);
        }
        let ws = session_windows(
            &info.panes,
            &metas,
            &keys,
            &mut buckets,
            name,
            Ghost(ev),
            Ghost(owner@),
            Ghost(sv.take(si as int)),
        );
        let current = match &info.current_session {
            Some(c) => *c == *name,
            None => false,
        };
        let ghost taken = sv.take(si as int);
        proof {
            assert(sv.take(si + 1) =~= taken.push(name@));
            assert(taken.contains(name@) <==> exists|k: int| 0 <= k < si && #[trigger] info@.sessions[k] == name@) by {
                if taken.contains(name@) {
                    let k = choose|k: int| 0 <= k < taken.len() && taken[k] == name@;
                    assert(info@.sessions[k] == name@);
                }
                if exists|k: int| 0 <= k < si && #[trigger] info@.sessions[k] == name@ {
                    let k = choose|k: int| 0 <= k < si && #[trigger] info@.sessions[k] == name@;
                    assert(taken[k] == name@);
                }
            }
            let wv = window_views(ws@);
            assert forall|a: int| 0 <= a < wv.len() implies {
                let w = #[trigger] wv[a];
                &&& has_window(pv, name@, w.index)
                &&& first_pane(pv, (name@, w.index)) matches Some(j) && w.name == pv[j].window_name
                    && w.active == pv[j].window_active
                &&& w.procs == if exists|k: int| 0 <= k < si && #[trigger] info@.sessions[k] == name@ {
                    Seq::<ProcView>::empty()
                } else {
                    window_procs(ev, pv, (name@, w.index))
                }
            } by {
                assert(wv[a] == ws@[a]@);
                let m = choose|m: int|
                    0 <= m < metas.len() && meta_key(pv, metas@, m) == (name@, (#[trigger] ws@[a])@.index)
                        && ws@[a]@.name == pv[metas[m] as int].window_name
                        && ws@[a]@.active == pv[metas[m] as int].window_active
                        && ws@[a]@.procs == if taken.contains(name@) {
                        Seq::<ProcView>::empty()
                    } else {
                        window_procs(ev, pv, (name@, ws@[a]@.index))
                    };
                assert(window_key(pv[metas[m] as int]) == (name@, wv[a].index));
                assert(first_pane(pv, meta_key(pv, metas@, m)) == Some(metas[m] as int));
            }
            assert forall|x: int, y: int| 0 <= x < y < wv.len() implies #[trigger] wv[x].index < #[trigger] wv[y].index by {
                assert(wv[x] == ws@[x]@ && wv[y] == ws@[y]@);
            }
            assert forall|j: int| 0 <= j < pv.len() && pv[j].session == name@ implies exists|a: int|
                0 <= a < wv.len() && #[trigger] wv[a].index == pv[j].window_index by {
                let a = choose|a: int| 0 <= a < ws@.len() && #[trigger] ws@[a]@.index == pv[j].window_index;
                assert(wv[a] == ws@[a]@);
            }
            assert(windows_ok(ev, info@, si as int, wv));
        }
        let s = Session { name: name.clone(), current, windows: ws };
        let ghost old_out = out@;
        out.push(s);
        proof {
            assert forall|i: int| 0 <= i < si + 1 implies {
                &&& (#[trigger] out@[i])@.name == info@.sessions[i]
                &&& out@[i]@.current == (info@.current_session == Some(info@.sessions[i]))
                &&& windows_ok(ev, info@, i, out@[i]@.windows)
            } by {
                if i < si {
                    assert(out@[i] == old_out[i]);
                } else {
                    assert(out@[i]@.name == name@);
                    assert(info@.sessions[i] == name@);
                    match info.current_session {
                        Some(c) => {
                            assert(info@.current_session == Some(c@));
                        },
                        None => {},
                    }
                }
            }
        }
        si += 1;
    }
    proof {
        let ov = session_views(out@);
        assert forall|i: int| 0 <= i < ov.len() implies {
            &&& #[trigger] ov[i].name == info@.sessions[i]
            &&& ov[i].current == (info@.current_session == Some(info@.sessions[i]))
            &&& windows_ok(ev, info@, i, ov[i].windows)
        } by {
            assert(ov[i] == out@[i]@);
        }
    }
    out
}

/// The strings of `parts` separated by single spaces.
pub open spec fn joined(parts: Seq<Seq<char>>) -> Seq<char>
    decreases parts.len(),
{
    if parts.len() == 0 {
        Seq::empty()
    } else if parts.len() == 1 {
        parts[0]
    } else {
        joined(parts.drop_last()) + seq![' '] + parts.last()
    }
}

/// A process's command line: its arguments separated by spaces, or its
/// name where it has no arguments.
pub open spec fn command_text(args: Seq<Seq<char>>, name: Seq<char>) -> Seq<char> {
    if args.len() == 0 {
        name
    } else {
        joined(args)
    }
}

/// The command line of a process from its arguments and its name.
pub fn command_line(args: &Vec<String>, name: &str) -> (s: String)
    ensures
        s@ == command_text(string_views(args@), name@),
{
    let ghost av = string_views(args@);
    if args.len() == 0 {
        let mut s = String::new();
        s.append(name);
        proof {
            assert(s@ =~= name@);
        }
        return s;
    }
    let mut s = String::new();
    let mut i: usize = 0;
    proof {
        assert(av.take(0) =~= Seq::<Seq<char>>::empty());
        assert(s@ =~= joined(av.take(0)));
    }
    while i < args.len()
        invariant
            0 <= i <= args.len(),
            av == string_views(args@),
            s@ == joined(av.take(i as int)),
        decreases args.len() - i,
    {
        proof {
            assert(av.take(i + 1).drop_last() =~= av.take(i as int));
            assert(av.take(i + 1).last() == args@[i as int]@);
        }
        if i > 0 {
            s.append(" ");
            proof {
                reveal_strlit(" ");
            }
        }
        s.append(args[i].as_str());
        proof {
            if i == 0 {
                assert(s@ =~= av.take(1)[0]);
            } else {
                assert(s@ =~= joined(av.take(i as int)) + seq![' '] + args@[i as int]@);
            }
        }
        i += 1;
    }
    proof {
        assert(av.take(i as int) =~= av);
    }
    s
}

/// Different windows hold different processes: no PID is listed under
/// two window keys.
proof fn lemma_keys_apart(
    procs: Seq<ProcessEntryView>,
    panes: Seq<PaneView>,
    k1: (Seq<char>, u32),
    k2: (Seq<char>, u32),
    x: ProcView,
    y: ProcView,
)
    requires
        k1 != k2,
        window_procs(procs, panes, k1).contains(x),
        window_procs(procs, panes, k2).contains(y),
    ensures
        x.pid != y.pid,
{
    let f1 = |e: ProcessEntryView| assign(procs, panes, k1, e);
    let f2 = |e: ProcessEntryView| assign(procs, panes, k2, e);
    procs.lemma_filter_map_contains(f1, x);
    procs.lemma_filter_map_contains(f2, y);
    let e1 = choose|e: ProcessEntryView| #[trigger] procs.contains(e) && f1(e) == Some(x);
    let e2 = choose|e: ProcessEntryView| #[trigger] procs.contains(e) && f2(e) == Some(y);
    assert(home(procs, panes, e1.pid) == Some(k1));
    assert(home(procs, panes, e2.pid) == Some(k2));
}

/// In a session tree that `build_sessions` may return, a process is listed
/// in one window at most: two different windows, of one session or of
/// two, never hold process rows with the same PID.
pub proof fn each_process_in_one_window(
    procs: Seq<ProcessEntryView>,
    info: TmuxInfoView,
    out: Seq<SessionView>,
    i: int,
    a: int,
    j: int,
    b: int,
    x: ProcView,
    y: ProcView,
)
    requires
        sessions_ok(procs, info, out),
        0 <= i < out.len(),
        0 <= j < out.len(),
        0 <= a < out[i].windows.len(),
        0 <= b < out[j].windows.len(),
        i != j || a != b,
        out[i].windows[a].procs.contains(x),
        out[j].windows[b].procs.contains(y),
    ensures
        x.pid != y.pid,
{
    let wi = out[i].windows[a];
    let wj = out[j].windows[b];
    assert(out[i].name == info.sessions[i]);
    assert(out[j].name == info.sessions[j]);
    assert(windows_ok(procs, info, i, out[i].windows));
    assert(windows_ok(procs, info, j, out[j].windows));
    let si = info.sessions[i];
    let sj = info.sessions[j];
    assert(wi == out[i].windows[a]);
    assert(wj == out[j].windows[b]);
    if i != j && si == sj {
        if i < j {
            assert(info.sessions[i] == sj);
            assert(wj.procs.len() == 0);
        } else {
            assert(info.sessions[j] == si);
            assert(wi.procs.len() == 0);
        }
    }
    if i == j {
        if a < b {
            assert(out[i].windows[a].index < out[i].windows[b].index);
        } else {
            assert(out[i].windows[b].index < out[i].windows[a].index);
        }
    }
    let ri = exists|k: int| 0 <= k < i && #[trigger] info.sessions[k] == si;
    let rj = exists|k: int| 0 <= k < j && #[trigger] info.sessions[k] == sj;
    if ri {
        assert(wi.procs.len() == 0);
    }
    if rj {
        assert(wj.procs.len() == 0);
    }
    lemma_keys_apart(procs, info.panes, (si, wi.index), (sj, wj.index), x, y);
}

proof fn lemma_pick_pids_apart(
    procs: Seq<ProcessEntryView>,
    panes: Seq<PaneView>,
    key: (Seq<char>, u32),
    l: Seq<ProcessEntryView>,
)
    requires
        unique_pids(l),
    ensures
        ({
            let r = l.filter_map(|e: ProcessEntryView| assign(procs, panes, key, e));
            forall|a: int, b: int|
                0 <= a < r.len() && 0 <= b < r.len() && a != b ==> #[trigger] r[a].pid
                    != #[trigger] r[b].pid
        }),
    decreases l.len(),
{
    let f = |e: ProcessEntryView| assign(procs, panes, key, e);
    if l.len() > 0 {
        let d = l.drop_last();
        assert forall|a: int, b: int|
            0 <= a < d.len() && 0 <= b < d.len() && a != b implies #[trigger] d[a].pid
            != #[trigger] d[b].pid by {
            assert(d[a] == l[a] && d[b] == l[b]);
        }
        lemma_pick_pids_apart(procs, panes, key, d);
        let rd = d.filter_map(f);
        let r = l.filter_map(f);
        if f(l.last()) is Some {
            assert(r == rd + seq![proc_of(l.last())]);
            assert forall|a: int| 0 <= a < rd.len() implies #[trigger] rd[a].pid != l.last().pid by {
                assert(rd.contains(rd[a]));
                d.lemma_filter_map_contains(f, rd[a]);
                let e = choose|e: ProcessEntryView| #[trigger] d.contains(e) && f(e) == Some(rd[a]);
                let k = choose|k: int| 0 <= k < d.len() && d[k] == e;
                assert(l[k] == e);
                assert(l[l.len() - 1] == l.last());
            }
            assert forall|a: int, b: int|
                0 <= a < r.len() && 0 <= b < r.len() && a != b implies #[trigger] r[a].pid
                != #[trigger] r[b].pid by {
                if a < rd.len() && b < rd.len() {
                    assert(r[a] == rd[a] && r[b] == rd[b]);
                } else if a < rd.len() {
                    assert(r[a] == rd[a]);
                } else if b < rd.len() {
                    assert(r[b] == rd[b]);
                }
            }
        }
    }
}

/// Where the process table lists each PID once, so does every window of
/// the session tree that `build_sessions` returns for it.
pub proof fn windows_list_each_pid_once(
    procs: Seq<ProcessEntryView>,
    info: TmuxInfoView,
    out: Seq<SessionView>,
    i: int,
    a: int,
)
    requires
        unique_pids(procs),
        sessions_ok(procs, info, out),
        0 <= i < out.len(),
        0 <= a < out[i].windows.len(),
    ensures
        ({
            let ps = out[i].windows[a].procs;
            forall|x: int, y: int|
                0 <= x < ps.len() && 0 <= y < ps.len() && x != y ==> #[trigger] ps[x].pid
                    != #[trigger] ps[y].pid
        }),
{
    assert(out[i].name == info.sessions[i]);
    assert(windows_ok(procs, info, i, out[i].windows));
    let w = out[i].windows[a];
    assert(w == out[i].windows[a]);
    lemma_pick_pids_apart(procs, info.panes, (info.sessions[i], w.index), procs);
}

/// The windows of each session that `build_sessions` returns have
/// distinct indices.
pub proof fn built_windows_apart(
    procs: Seq<ProcessEntryView>,
    info: TmuxInfoView,
    out: Seq<SessionView>,
    i: int,
)
    requires
        sessions_ok(procs, info, out),
        0 <= i < out.len(),
    ensures
        crate::rows::indices_apart(out[i].windows),
{
    assert(out[i].name == info.sessions[i]);
    assert(windows_ok(procs, info, i, out[i].windows));
    let ws = out[i].windows;
    assert forall|a: int, b: int| 0 <= a < ws.len() && 0 <= b < ws.len() && a != b implies #[trigger] ws[a].index
        != #[trigger] ws[b].index by {
        if a < b {
            assert(ws[a].index < ws[b].index);
        } else {
            assert(ws[b].index < ws[a].index);
        }
    }
}

proof fn lemma_pane_of_pid_last(panes: Seq<PaneView>, j: int)
    requires
        0 <= j < panes.len(),
        forall|k: int| j < k < panes.len() ==> #[trigger] panes[k].pane_pid != panes[j].pane_pid,
    ensures
        pane_of_pid(panes, panes[j].pane_pid) == Some(j),
    decreases panes.len(),
{
    if j < panes.len() - 1 {
        let d = panes.drop_last();
        assert(panes[panes.len() - 1].pane_pid != panes[j].pane_pid);
        assert forall|k: int| j < k < d.len() implies #[trigger] d[k].pane_pid != d[j].pane_pid by {
            assert(d[k] == panes[k]);
        }
        lemma_pane_of_pid_last(d, j);
    }
}

proof fn lemma_pane_of_pid_none(panes: Seq<PaneView>, pid: u32)
    requires
        forall|k: int| 0 <= k < panes.len() ==> #[trigger] panes[k].pane_pid != pid,
    ensures
        pane_of_pid(panes, pid) is None,
    decreases panes.len(),
{
    if panes.len() > 0 {
        let d = panes.drop_last();
        assert(panes[panes.len() - 1].pane_pid != pid);
        assert forall|k: int| 0 <= k < d.len() implies #[trigger] d[k].pane_pid != pid by {
            assert(d[k] == panes[k]);
        }
        lemma_pane_of_pid_none(d, pid);
    }
}

proof fn lemma_find_unique(procs: Seq<ProcessEntryView>, i: int)
    requires
        unique_pids(procs),
        0 <= i < procs.len(),
    ensures
        find_entry(procs, procs[i].pid) == Some(i),
    decreases procs.len(),
{
    if i < procs.len() - 1 {
        let d = procs.drop_last();
        assert(procs[procs.len() - 1].pid != procs[i].pid);
        assert forall|a: int, b: int| 0 <= a < d.len() && 0 <= b < d.len() && a != b implies #[trigger] d[a].pid
            != #[trigger] d[b].pid by {
            assert(d[a] == procs[a] && d[b] == procs[b]);
        }
        lemma_find_unique(d, i);
    }
}

proof fn lemma_filter_map_has<A, B>(s: Seq<A>, f: spec_fn(A) -> Option<B>, i: int)
    requires
        0 <= i < s.len(),
        f(s[i]) is Some,
    ensures
        s.filter_map(f).contains(f(s[i])->0),
    decreases s.len(),
{
    let d = s.drop_last();
    if i == s.len() - 1 {
        assert(s.filter_map(f) == d.filter_map(f) + seq![f(s[i])->0]);
        assert(s.filter_map(f)[d.filter_map(f).len() as int] == f(s[i])->0);
    } else {
        assert(d[i] == s[i]);
        lemma_filter_map_has(d, f, i);
        let k = choose|k: int| 0 <= k < d.filter_map(f).len() && d.filter_map(f)[k] == f(s[i])->0;
        match f(s.last()) {
            Some(x) => {
                assert(s.filter_map(f) == d.filter_map(f) + seq![x]);
                assert(s.filter_map(f)[k] == f(s[i])->0);
            },
            None => {},
        }
    }
}

/// A process row made from table entry `e`: its PID, parent (0 when it
/// has none), CPU reading, memory and command line.
pub open spec fn row_of_entry(x: ProcView, e: ProcessEntryView) -> bool {
    &&& x.pid == e.pid
    &&& x.ppid == match e.parent {
        Some(p) => p,
        None => 0,
    }
    &&& x.cpu == e.cpu
    &&& x.mem == e.mem
    &&& x.command == e.command
}

/// The root process of a pane joins the window of that pane (the last
/// pane started with it, when several were), and so does a child of it
/// that is itself no pane root, when the table lists each PID once.
pub proof fn pane_roots_and_children_join_their_window(
    procs: Seq<ProcessEntryView>,
    panes: Seq<PaneView>,
    e: int,
    j: int,
)
    requires
        unique_pids(procs),
        0 <= e < procs.len(),
        0 <= j < panes.len(),
        forall|k: int| j < k < panes.len() ==> #[trigger] panes[k].pane_pid != panes[j].pane_pid,
        procs[e].pid == panes[j].pane_pid || (procs[e].parent == Some(panes[j].pane_pid) && forall|
            k: int,
        | 0 <= k < panes.len() ==> #[trigger] panes[k].pane_pid != procs[e].pid),
    ensures
        exists|x: ProcView|
            #[trigger] window_procs(procs, panes, (panes[j].session, panes[j].window_index)).contains(x)
                && row_of_entry(x, procs[e]),
{
    let pid = procs[e].pid;
    let key = (panes[j].session, panes[j].window_index);
    lemma_pane_of_pid_last(panes, j);
    assert(ancestor(procs, pid, 0) == Some(pid));
    if pid == panes[j].pane_pid {
        assert(home_from(procs, panes, pid, 0) == Some(window_key(panes[j])));
    } else {
        lemma_pane_of_pid_none(panes, pid);
        lemma_find_unique(procs, e);
        assert(parent_of(procs, pid) == procs[e].parent);
        assert(ancestor(procs, pid, 1) == Some(panes[j].pane_pid));
        assert(home_from(procs, panes, pid, 1) == Some(window_key(panes[j])));
        assert(home_from(procs, panes, pid, 0) == home_from(procs, panes, pid, 1));
    }
    assert(home(procs, panes, pid) == Some(key));
    let f = |x: ProcessEntryView| assign(procs, panes, key, x);
    assert(f(procs[e]) == Some(proc_of(procs[e])));
    lemma_filter_map_has(procs, f, e);
    assert(row_of_entry(proc_of(procs[e]), procs[e]));
    assert(window_procs(procs, panes, key) == procs.filter_map(f));
    assert(window_procs(procs, panes, key).contains(proc_of(procs[e])));
}

/// A command line is its name when there are no arguments, the argument
/// itself when there is one, and for arguments `a` followed by `b` (both
/// non-empty lists) the line of `a`, a space, then the line of `b`.
pub proof fn command_lines_join_with_spaces(
    a: Seq<Seq<char>>,
    b: Seq<Seq<char>>,
    x: Seq<char>,
    name: Seq<char>,
)
    ensures
        command_text(Seq::empty(), name) == name,
        command_text(seq![x], name) == x,
        a.len() > 0 && b.len() > 0 ==> command_text(a + b, name) == command_text(a, name) + seq![' ']
            + command_text(b, name),
    decreases b.len(),
{
    if a.len() > 0 && b.len() > 1 {
        command_lines_join_with_spaces(a, b.drop_last(), x, name);
        assert((a + b).drop_last() =~= a + b.drop_last());
        assert((a + b).last() == b.last());
        assert(joined(a + b) == joined(a + b.drop_last()) + seq![' '] + b.last());
    } else if a.len() > 0 && b.len() == 1 {
        assert((a + b).drop_last() =~= a);
        assert((a + b).last() == b[0]);
    }
}

} // verus!

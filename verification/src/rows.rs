//! Flatten a session into the visible rows: a header per window followed by
//! its processes laid out as a tree, honoring the filter, the sort order and
//! the folded windows.

use std::collections::HashMap;

use vstd::prelude::*;

use crate::model::{
    cpu_order, proc_views, window_views, Proc, ProcView, Session, SessionView, Window, WindowView,
};
use crate::order::{before, in_bounds, sort_positions, sorted_by};
use crate::text::{
    chars_of, contains, contains_chars, decimal, decimal_string, lowercase,
    string_of, to_lowercase,
};

verus! {

broadcast use vstd::std_specs::hash::group_hash_axioms;

/// Which metric the process lists are sorted by.
#[derive(Clone, Copy, PartialEq, Eq, Structural)]
pub enum Sort {
    Cpu,
    Mem,
}

/// A single visible line in the tree: either a window header or a process.
pub enum Row {
    /// A window header. `cpu` holds the CPU readings (bit patterns, as in
    /// `Proc`) of the processes it counts, in window order; their sum is the
    /// window's CPU figure. `mem` is the sum of their memory.
    Window {
        key: (String, u32),
        index: u32,
        name: String,
        active: bool,
        collapsed: bool,
        count: usize,
        cpu: Vec<u32>,
        mem: u64,
    },
    /// A process. `prefix` holds the rendered tree branch (e.g. `"│  └─ "`).
    Proc { proc: Proc, prefix: String },
}

pub enum RowView {
    Window {
        key: (Seq<char>, u32),
        index: u32,
        name: Seq<char>,
        active: bool,
        collapsed: bool,
        count: nat,
        cpu: Seq<u32>,
        mem: nat,
    },
    Proc { proc: ProcView, prefix: Seq<char> },
}

impl View for Row {
    type V = RowView;

    open spec fn view(&self) -> RowView {
        match self {
            Row::Window { key, index, name, active, collapsed, count, cpu, mem } => RowView::Window {
                key: (key.0@, key.1),
                index: *index,
                name: name@,
                active: *active,
                collapsed: *collapsed,
                count: *count as nat,
                cpu: cpu@,
                mem: *mem as nat,
            },
            Row::Proc { proc, prefix } => RowView::Proc { proc: proc@, prefix: prefix@ },
        }
    }
}

pub open spec fn row_views(r: Seq<Row>) -> Seq<RowView> {
    r.map_values(|x: Row| x@)
}

/// What the rows of one window are computed from.
pub struct Scope {
    pub procs: Seq<ProcView>,
    pub filtering: bool,
    pub needle: Seq<char>,
    pub sort: Sort,
}

/// The position of the process with PID `pid`.
pub open spec fn pos_of(procs: Seq<ProcView>, pid: u32) -> Option<int>
    decreases procs.len(),
{
    if procs.len() == 0 {
        None
    } else if procs.last().pid == pid {
        Some(procs.len() - 1)
    } else {
        pos_of(procs.drop_last(), pid)
    }
}

/// The position of the parent of process `i`, if the parent is in the window.
pub open spec fn parent_pos(procs: Seq<ProcView>, i: int) -> Option<int> {
    pos_of(procs, procs[i].ppid)
}

/// The `k`-th ancestor of process `i` within the window.
pub open spec fn up(procs: Seq<ProcView>, i: int, k: nat) -> Option<int>
    decreases k,
{
    if k == 0 {
        Some(i)
    } else {
        match up(procs, i, (k - 1) as nat) {
            Some(x) => parent_pos(procs, x),
            None => None,
        }
    }
}

/// Process `i` matches the filter: its lowercased command line or its PID
/// contains the (lowercased) filter text.
pub open spec fn hit(procs: Seq<ProcView>, needle: Seq<char>, i: int) -> bool {
    matches_filter(procs[i], needle)
}

/// The lowercased command line or the PID of `p` contains `needle`.
pub open spec fn matches_filter(p: ProcView, needle: Seq<char>) -> bool {
    contains(lowercase(p.command), needle) || contains(decimal(p.pid as nat), needle)
}

/// Process `i` matches the filter or is an ancestor of a process that does.
pub open spec fn kept_by_filter(procs: Seq<ProcView>, needle: Seq<char>, i: int) -> bool {
    exists|h: int, k: nat|
        0 <= h < procs.len() && hit(procs, needle, h) && #[trigger] up(procs, h, k) == Some(i)
}

/// Process `i` is shown: there is no filter, or it is kept by it.
pub open spec fn included(t: Scope, i: int) -> bool {
    !t.filtering || kept_by_filter(t.procs, t.needle, i)
}

/// Process `i` is shown at the top level of its window's tree: its parent
/// is not shown in this window.
pub open spec fn is_root(t: Scope, i: int) -> bool {
    included(t, i) && !(parent_pos(t.procs, i) matches Some(q) && included(t, q))
}

/// Process `i` is shown as a child of process `q`.
pub open spec fn is_kid(t: Scope, q: int, i: int) -> bool {
    included(t, i) && parent_pos(t.procs, i) == Some(q) && included(t, q)
}

/// The positions below `n` that satisfy `pred`, in increasing order.
pub open spec fn positions(n: nat, pred: spec_fn(int) -> bool) -> Seq<usize>
    decreases n,
{
    if n == 0 {
        Seq::empty()
    } else if pred(n - 1) {
        positions((n - 1) as nat, pred).push((n - 1) as usize)
    } else {
        positions((n - 1) as nat, pred)
    }
}

/// The sort key of a process: smaller comes first. By CPU: higher CPU
/// first, then more memory; by memory: more memory first, then higher CPU.
pub open spec fn rank(sort: Sort, p: ProcView) -> u128 {
    match sort {
        Sort::Cpu => ((0x1_0000_0000 - cpu_order(p.cpu)) * 0x1_0000_0000_0000_0000int + (
        0xffff_ffff_ffff_ffffu64 - p.mem)) as u128,
        Sort::Mem => ((0xffff_ffff_ffff_ffffu64 - p.mem) * 0x1_0000_0000int + (0x1_0000_0000
            - cpu_order(p.cpu))) as u128,
    }
}

/// The sort keys of a window's processes.
pub open spec fn ranks(t: Scope) -> Seq<u128> {
    t.procs.map_values(|p: ProcView| rank(t.sort, p))
}

/// `r` is `items` put in the order `before` gives.
pub open spec fn sorting_of(keys: Seq<u128>, items: Seq<usize>, r: Seq<usize>) -> bool {
    &&& r.no_duplicates()
    &&& r.to_set() == items.to_set()
    &&& r.len() == items.len()
    &&& in_bounds(keys, r)
    &&& sorted_by(keys, r)
}

/// `items` sorted by key, ties in position order (a stable sort of
/// positions listed in increasing order).
pub open spec fn sorted(keys: Seq<u128>, items: Seq<usize>) -> Seq<usize> {
    choose|r: Seq<usize>| sorting_of(keys, items, r)
}

/// The children of process `q` in display order.
pub open spec fn kids(t: Scope, q: int) -> Seq<usize> {
    sorted(ranks(t), positions(t.procs.len(), |i: int| is_kid(t, q, i)))
}

/// The top-level processes of the window in display order.
pub open spec fn roots(t: Scope) -> Seq<usize> {
    sorted(ranks(t), positions(t.procs.len(), |i: int| is_root(t, i)))
}

pub open spec fn branch(last: bool) -> Seq<char> {
    if last {
        seq!['└', '─', ' ']
    } else {
        seq!['├', '─', ' ']
    }
}

pub open spec fn indent(last: bool) -> Seq<char> {
    if last {
        seq![' ', ' ', ' ']
    } else {
        seq!['│', ' ', ' ']
    }
}

/// The rows of process `i` and, depth first, of its descendants; `last`
/// says whether `i` is the last of its siblings. `fuel` bounds the depth;
/// for a window of `n` processes, depth `n` is never reached, since each
/// step down goes to a process not yet on the path.
pub open spec fn subtree(t: Scope, i: int, prefix: Seq<char>, last: bool, fuel: nat) -> Seq<
    RowView,
>
    decreases fuel, 0nat,
{
    if fuel == 0 {
        Seq::empty()
    } else {
        seq![RowView::Proc { proc: t.procs[i], prefix: prefix + branch(last) }] + forest(
            t,
            kids(t, i),
            prefix + indent(last),
            true,
            (fuel - 1) as nat,
        )
    }
}

/// The rows of the subtrees of `list`, in order; the last one is drawn as
/// the last sibling when `ends` holds.
pub open spec fn forest(t: Scope, list: Seq<usize>, prefix: Seq<char>, ends: bool, fuel: nat) -> Seq<
    RowView,
>
    decreases fuel, list.len(),
{
    if list.len() == 0 {
        Seq::empty()
    } else {
        forest(t, list.drop_last(), prefix, false, fuel) + subtree(
            t,
            list.last() as int,
            prefix,
            ends,
            fuel,
        )
    }
}

/// The sum of the memory of the processes at `list`.
pub open spec fn mem_sum(procs: Seq<ProcView>, list: Seq<usize>) -> nat
    decreases list.len(),
{
    if list.len() == 0 {
        0
    } else {
        mem_sum(procs, list.drop_last()) + (procs[list.last() as int].mem as nat)
    }
}

/// The rows of one window: nothing when a filter leaves none of its
/// processes; else a header, then (unless the window is folded, which a
/// filter overrides) its process forest.
pub open spec fn window_block(
    session: Seq<char>,
    w: WindowView,
    filtering: bool,
    needle: Seq<char>,
    sort: Sort,
    folded: Seq<(Seq<char>, u32)>,
) -> Seq<RowView> {
    let t = Scope { procs: w.procs, filtering, needle, sort };
    let n = w.procs.len();
    let shown = positions(n, |i: int| included(t, i));
    if filtering && shown.len() == 0 {
        Seq::empty()
    } else {
        let key = (session, w.index);
        let collapsed = !filtering && folded.contains(key);
        let header = RowView::Window {
            key,
            index: w.index,
            name: w.name,
            active: w.active,
            collapsed,
            count: shown.len(),
            cpu: shown.map_values(|i: usize| w.procs[i as int].cpu),
            mem: mem_sum(w.procs, shown),
        };
        seq![header] + if collapsed {
            Seq::empty()
        } else {
            forest(t, roots(t), Seq::empty(), true, n)
        }
    }
}

/// The rows of the windows `ws` of session `session`, window by window.
pub open spec fn blocks(
    session: Seq<char>,
    ws: Seq<WindowView>,
    filtering: bool,
    needle: Seq<char>,
    sort: Sort,
    folded: Seq<(Seq<char>, u32)>,
) -> Seq<RowView>
    decreases ws.len(),
{
    if ws.len() == 0 {
        Seq::empty()
    } else {
        blocks(session, ws.drop_last(), filtering, needle, sort, folded) + window_block(
            session,
            ws.last(),
            filtering,
            needle,
            sort,
            folded,
        )
    }
}

/// The text a filter matches against: empty for an empty filter, else the
/// filter lowercased.
pub open spec fn needle_of(filter: Seq<char>) -> Seq<char> {
    if filter.len() == 0 {
        Seq::empty()
    } else {
        lowercase(filter)
    }
}

/// The rows of a session under filter text `filter`: the filter applies
/// when its lowercase form is not empty.
pub open spec fn session_rows(
    s: SessionView,
    filter: Seq<char>,
    sort: Sort,
    folded: Seq<(Seq<char>, u32)>,
) -> Seq<RowView> {
    let needle = needle_of(filter);
    blocks(s.name, s.windows, needle.len() > 0, needle, sort, folded)
}

/// No two processes of the window share a PID, and their memory adds up
/// within `u64`.
pub open spec fn window_wf(w: WindowView) -> bool {
    &&& forall|i: int, j: int|
        0 <= i < w.procs.len() && 0 <= j < w.procs.len() && i != j ==> #[trigger] w.procs[i].pid
            != #[trigger] w.procs[j].pid
    &&& mem_sum(w.procs, positions(w.procs.len(), |i: int| true)) <= u64::MAX
}

/// No two windows of the list share an index.
pub open spec fn indices_apart(ws: Seq<WindowView>) -> bool {
    forall|a: int, b: int|
        0 <= a < ws.len() && 0 <= b < ws.len() && a != b ==> #[trigger] ws[a].index
            != #[trigger] ws[b].index
}

/// Every window of the session is well formed, and no two windows share
/// an index (as tmux numbers them, and as `build_sessions` lists them).
pub open spec fn session_wf(s: SessionView) -> bool {
    &&& forall|k: int| 0 <= k < s.windows.len() ==> window_wf(#[trigger] s.windows[k])
    &&& indices_apart(s.windows)
}

pub open spec fn opt_pos(o: Option<usize>) -> Option<int> {
    match o {
        Some(x) => Some(x as int),
        None => None,
    }
}

proof fn lemma_pos_of(procs: Seq<ProcView>, pid: u32)
    ensures
        pos_of(procs, pid) matches Some(i) ==> 0 <= i < procs.len() && procs[i].pid == pid,
        pos_of(procs, pid) is None ==> forall|i: int| 0 <= i < procs.len() ==> procs[i].pid != pid,
    decreases procs.len(),
{
    if procs.len() > 0 {
        lemma_pos_of(procs.drop_last(), pid);
        assert forall|i: int| 0 <= i < procs.len() - 1 implies procs[i] == procs.drop_last()[i] by {}
    }
}

/// Maps each PID of the window to its position.
fn pid_positions(procs: &Vec<Proc>) -> (m: HashMap<u32, usize>)
    ensures
        forall|pid: u32| #[trigger] m@.contains_key(pid) <==> pos_of(proc_views(procs@), pid) is Some,
        forall|pid: u32| #[trigger]
            m@.contains_key(pid) ==> m@[pid] as int == pos_of(proc_views(procs@), pid)->0,
{
    let ghost pv = proc_views(procs@);
    let mut m: HashMap<u32, usize> = HashMap::new();
    let mut i: usize = 0;
    while i < procs.len()
        invariant
            0 <= i <= procs.len(),
            pv == proc_views(procs@),
            forall|pid: u32| #[trigger] m@.contains_key(pid) <==> pos_of(pv.take(i as int), pid) is Some,
            forall|pid: u32| #[trigger]
                m@.contains_key(pid) ==> m@[pid] as int == pos_of(pv.take(i as int), pid)->0,
        decreases procs.len() - i,
    {
        m.insert(procs[i].pid, i);
        proof {
            assert(pv.take(i + 1).drop_last() =~= pv.take(i as int));
            assert(pv.take(i + 1).last() == pv[i as int]);
        }
        i += 1;
    }
    proof {
        assert(pv.take(i as int) =~= pv);
    }
    m
}

/// The position of each process's parent within the window.
fn parent_positions(procs: &Vec<Proc>, m: &HashMap<u32, usize>) -> (pp: Vec<Option<usize>>)
    requires
        forall|pid: u32| #[trigger] m@.contains_key(pid) <==> pos_of(proc_views(procs@), pid) is Some,
        forall|pid: u32| #[trigger]
            m@.contains_key(pid) ==> m@[pid] as int == pos_of(proc_views(procs@), pid)->0,
    ensures
        pp@.len() == procs@.len(),
        forall|i: int|
            0 <= i < pp@.len() ==> opt_pos(#[trigger] pp@[i]) == parent_pos(proc_views(procs@), i),
        forall|i: int|
            0 <= i < pp@.len() ==> (#[trigger] pp@[i] matches Some(q) ==> q < procs@.len()),
{
    let ghost pv = proc_views(procs@);
    let mut pp: Vec<Option<usize>> = Vec::new();
    let mut i: usize = 0;
    while i < procs.len()
        invariant
            0 <= i <= procs.len(),
            pv == proc_views(procs@),
            forall|pid: u32| #[trigger] m@.contains_key(pid) <==> pos_of(pv, pid) is Some,
            forall|pid: u32| #[trigger] m@.contains_key(pid) ==> m@[pid] as int == pos_of(pv, pid)->0,
            pp@.len() == i,
            forall|k: int| 0 <= k < i ==> opt_pos(#[trigger] pp@[k]) == parent_pos(pv, k),
            forall|k: int| 0 <= k < i ==> (#[trigger] pp@[k] matches Some(q) ==> q < procs@.len()),
        decreases procs.len() - i,
    {
        let ppid = procs[i].ppid;
        proof {
            assert(pv[i as int].ppid == ppid);
            lemma_pos_of(pv, ppid);
        }
        let r = match m.get(&ppid) {
            Some(q) => Some(*q),
            None => None,
        };
        pp.push(r);
        i += 1;
    }
    pp
}

/// Whether process `p` matches the filter text `needle`.
fn matches_needle(p: &Proc, needle: &Vec<char>) -> (r: bool)
    ensures
        r == matches_filter(p@, needle@),
{
    let lower = to_lowercase(p.command.as_str());
    let lv = chars_of(lower.as_str());
    if contains_chars(&lv, needle) {
        return true;
    }
    let ds = decimal_string(p.pid);
    let dv = chars_of(ds.as_str());
    contains_chars(&dv, needle)
}

/// The sort key of each process.
fn rank_keys(procs: &Vec<Proc>, sort: Sort) -> (keys: Vec<u128>)
    ensures
        keys@.len() == procs@.len(),
        forall|i: int| 0 <= i < keys@.len() ==> #[trigger] keys@[i] == rank(sort, procs@[i]@),
{
    let mut keys: Vec<u128> = Vec::new();
    let mut i: usize = 0;
    while i < procs.len()
        invariant
            0 <= i <= procs.len(),
            keys@.len() == i,
            forall|k: int| 0 <= k < i ==> #[trigger] keys@[k] == rank(sort, procs@[k]@),
        decreases procs.len() - i,
    {
        let p = &procs[i];
        let order: u64 = if p.cpu < 0x8000_0000 {
            p.cpu as u64 + 0x8000_0000
        } else {
            0x1_0000_0000 - p.cpu as u64
        };
        let k: u128 = match sort {
            Sort::Cpu => ((0x1_0000_0000 - order) as u128) * 0x1_0000_0000_0000_0000u128 + ((
            0xffff_ffff_ffff_ffffu64 - p.mem) as u128),
            Sort::Mem => ((0xffff_ffff_ffff_ffffu64 - p.mem) as u128) * 0x1_0000_0000u128 + ((
            0x1_0000_0000 - order) as u128),
        };
        keys.push(k);
        i += 1;
    }
    keys
}

/// Two sortings of the same items are the same sequence.
proof fn lemma_sorting_unique(keys: Seq<u128>, r1: Seq<usize>, r2: Seq<usize>)
    requires
        r1.no_duplicates(),
        r2.no_duplicates(),
        r1.to_set() == r2.to_set(),
        r1.len() == r2.len(),
        in_bounds(keys, r1),
        in_bounds(keys, r2),
        sorted_by(keys, r1),
        sorted_by(keys, r2),
    ensures
        r1 == r2,
    decreases r1.len(),
{
    if r1.len() > 0 {
        let x = r1[0];
        let y = r2[0];
        assert(r1.to_set().contains(x));
        assert(r2.to_set().contains(y));
        if x != y {
            assert(r2.contains(x));
            let j = choose|j: int| 0 <= j < r2.len() && r2[j] == x;
            assert(r1.contains(y));
            let i = choose|i: int| 0 <= i < r1.len() && r1[i] == y;
            assert(before(keys, r2[0], r2[j]));
            assert(before(keys, r1[0], r1[i]));
        }
        let s1 = r1.drop_first();
        let s2 = r2.drop_first();
        assert(s1.no_duplicates());
        assert(s2.no_duplicates());
        assert(s1.to_set() =~= s2.to_set()) by {
            assert forall|z: usize| s1.contains(z) implies s2.contains(z) by {
                let a = choose|a: int| 0 <= a < s1.len() && s1[a] == z;
                assert(r1[a + 1] == z);
                assert(r1.to_set().contains(z));
                let b = choose|b: int| 0 <= b < r2.len() && r2[b] == z;
                if b == 0 {
                    assert(r1[0] == z);
                }
                assert(s2[b - 1] == z);
            }
            assert forall|z: usize| s2.contains(z) implies s1.contains(z) by {
                let a = choose|a: int| 0 <= a < s2.len() && s2[a] == z;
                assert(r2[a + 1] == z);
                assert(r2.to_set().contains(z));
                let b = choose|b: int| 0 <= b < r1.len() && r1[b] == z;
                if b == 0 {
                    assert(r2[0] == z);
                }
                assert(s1[b - 1] == z);
            }
        }
        assert(in_bounds(keys, s1));
        assert(in_bounds(keys, s2));
        assert(sorted_by(keys, s1)) by {
            assert forall|a: int, b: int| 0 <= a < b < s1.len() implies before(keys, #[trigger] s1[a], #[trigger] s1[b]) by {
                assert(s1[a] == r1[a + 1] && s1[b] == r1[b + 1]);
            }
        }
        assert(sorted_by(keys, s2)) by {
            assert forall|a: int, b: int| 0 <= a < b < s2.len() implies before(keys, #[trigger] s2[a], #[trigger] s2[b]) by {
                assert(s2[a] == r2[a + 1] && s2[b] == r2[b + 1]);
            }
        }
        lemma_sorting_unique(keys, s1, s2);
        assert(r1 =~= seq![x] + s1);
        assert(r2 =~= seq![y] + s2);
    }
}

/// A sorting that `sort_positions` computed is the one `sorted` names.
proof fn lemma_sorted_is(keys: Seq<u128>, items: Seq<usize>, r: Seq<usize>)
    requires
        sorting_of(keys, items, r),
    ensures
        sorted(keys, items) == r,
{
    let c = sorted(keys, items);
    assert(sorting_of(keys, items, c));
    lemma_sorting_unique(keys, r, c);
}

/// The number of `true` entries.
pub open spec fn num_true(s: Seq<bool>) -> nat
    decreases s.len(),
{
    if s.len() == 0 {
        0
    } else {
        num_true(s.drop_last()) + if s.last() {
            1nat
        } else {
            0nat
        }
    }
}

proof fn lemma_num_true_bound(s: Seq<bool>)
    ensures
        num_true(s) <= s.len(),
    decreases s.len(),
{
    if s.len() > 0 {
        lemma_num_true_bound(s.drop_last());
    }
}

proof fn lemma_num_true_set(s: Seq<bool>, i: int)
    requires
        0 <= i < s.len(),
        !s[i],
    ensures
        num_true(s.update(i, true)) == num_true(s) + 1,
    decreases s.len(),
{
    if i < s.len() - 1 {
        assert(s.update(i, true).drop_last() =~= s.drop_last().update(i, true));
        lemma_num_true_set(s.drop_last(), i);
    } else {
        assert(s.update(i, true).drop_last() =~= s.drop_last());
    }
}

/// The process at `o`, if any, is marked.
pub open spec fn kept_at(kept: Seq<bool>, o: Option<int>) -> bool {
    match o {
        Some(x) => kept[x],
        None => true,
    }
}

/// Every shown process's parent in the window is shown.
pub open spec fn closed(procs: Seq<ProcView>, kept: Seq<bool>) -> bool {
    forall|x: int|
        0 <= x < kept.len() && #[trigger] kept[x] ==> match parent_pos(procs, x) {
            Some(q) => kept[q],
            None => true,
        }
}

proof fn lemma_up_kept(procs: Seq<ProcView>, kept: Seq<bool>, x: int, j: nat)
    requires
        kept.len() == procs.len(),
        closed(procs, kept),
        0 <= x < kept.len(),
        kept[x],
    ensures
        up(procs, x, j) matches Some(y) ==> 0 <= y < kept.len() && kept[y],
    decreases j,
{
    if j > 0 {
        lemma_up_kept(procs, kept, x, (j - 1) as nat);
        match up(procs, x, (j - 1) as nat) {
            Some(z) => {
                lemma_pos_of(procs, procs[z].ppid);
            },
            None => {},
        }
    }
}

pub(crate) proof fn lemma_up_add(procs: Seq<ProcView>, h: int, k: nat, c: int, j: nat)
    requires
        up(procs, h, k) == Some(c),
    ensures
        up(procs, h, k + j) == up(procs, c, j),
    decreases j,
{
    if j > 0 {
        lemma_up_add(procs, h, k, c, (j - 1) as nat);
        assert(up(procs, h, k + j) == match up(procs, h, (k + j - 1) as nat) {
            Some(x) => parent_pos(procs, x),
            None => None,
        });
    }
}

pub(crate) proof fn lemma_up_none(procs: Seq<ProcView>, h: int, k: nat, j: nat)
    requires
        up(procs, h, k) is None,
        j >= k,
    ensures
        up(procs, h, j) is None,
    decreases j,
{
    if j > k {
        lemma_up_none(procs, h, k, (j - 1) as nat);
    }
}

pub(crate) proof fn lemma_up_bounds(procs: Seq<ProcView>, h: int, k: nat)
    requires
        0 <= h < procs.len(),
    ensures
        up(procs, h, k) matches Some(x) ==> 0 <= x < procs.len(),
    decreases k,
{
    if k > 0 {
        lemma_up_bounds(procs, h, (k - 1) as nat);
        match up(procs, h, (k - 1) as nat) {
            Some(z) => {
                lemma_pos_of(procs, procs[z].ppid);
            },
            None => {},
        }
    }
}

/// Marks the processes that match `needle` and all their ancestors in the
/// window.
fn kept_set(procs: &Vec<Proc>, pp: &Vec<Option<usize>>, needle: &Vec<char>) -> (kept: Vec<bool>)
    requires
        pp@.len() == procs@.len(),
        forall|i: int|
            0 <= i < pp@.len() ==> opt_pos(#[trigger] pp@[i]) == parent_pos(proc_views(procs@), i),
        forall|i: int| 0 <= i < pp@.len() ==> (#[trigger] pp@[i] matches Some(q) ==> q < procs@.len()),
    ensures
        kept@.len() == procs@.len(),
        forall|i: int|
            0 <= i < kept@.len() ==> #[trigger] kept@[i] == kept_by_filter(proc_views(procs@), needle@, i),
{
    let ghost pv = proc_views(procs@);
    let n = procs.len();
    let mut kept: Vec<bool> = Vec::new();
    let mut z: usize = 0;
    while z < n
        invariant
            0 <= z <= n,
            kept@.len() == z,
            forall|x: int| 0 <= x < z ==> !(#[trigger] kept@[x]),
        decreases n - z,
    {
        kept.push(false);
        z += 1;
    }
    let mut h: usize = 0;
    while h < n
        invariant
            0 <= h <= n == procs@.len() == pv.len(),
            pv == proc_views(procs@),
            pp@.len() == n,
            forall|i: int| 0 <= i < pp@.len() ==> opt_pos(#[trigger] pp@[i]) == parent_pos(pv, i),
            forall|i: int| 0 <= i < pp@.len() ==> (#[trigger] pp@[i] matches Some(q) ==> q < n),
            kept@.len() == n,
            closed(pv, kept@),
            forall|x: int| 0 <= x < n && #[trigger] kept@[x] ==> kept_by_filter(pv, needle@, x),
            forall|h2: int, k: nat|
                0 <= h2 < h && hit(pv, needle@, h2) ==> kept_at(kept@, #[trigger] up(pv, h2, k)),
        decreases n - h,
    {
        proof {
            assert(pv[h as int] == procs@[h as int]@);
        }
        if matches_needle(&procs[h], needle) {
            let mut cur: Option<usize> = Some(h);
            let ghost mut k: nat = 0;
            proof {
                lemma_num_true_bound(kept@);
            }
            loop
                invariant
                    0 <= h < n == procs@.len() == pv.len(),
                    pv == proc_views(procs@),
                    hit(pv, needle@, h as int),
                    pp@.len() == n,
                    forall|i: int| 0 <= i < pp@.len() ==> opt_pos(#[trigger] pp@[i]) == parent_pos(pv, i),
                    forall|i: int| 0 <= i < pp@.len() ==> (#[trigger] pp@[i] matches Some(q) ==> q < n),
                    kept@.len() == n,
                    opt_pos(cur) == up(pv, h as int, k),
                    cur matches Some(c) ==> c < n,
                    forall|x: int|
                        0 <= x < kept@.len() && #[trigger] kept@[x] ==> match parent_pos(pv, x) {
                            Some(q) => kept@[q] || opt_pos(cur) == Some(q),
                            None => true,
                        },
                    forall|x: int| 0 <= x < n && #[trigger] kept@[x] ==> kept_by_filter(pv, needle@, x),
                    forall|h2: int, k2: nat|
                        0 <= h2 < h && hit(pv, needle@, h2) ==> kept_at(kept@, #[trigger] up(pv, h2, k2)),
                    forall|k2: nat|
                        k2 < k ==> kept_at(kept@, #[trigger] up(pv, h as int, k2)),
                ensures
                    closed(pv, kept@),
                    kept@.len() == n,
                    forall|x: int| 0 <= x < n && #[trigger] kept@[x] ==> kept_by_filter(pv, needle@, x),
                    forall|h2: int, k2: nat|
                        0 <= h2 <= h && hit(pv, needle@, h2) ==> kept_at(kept@, #[trigger] up(pv, h2, k2)),
                decreases n - num_true(kept@),
            {
                match cur {
                    None => {
                        proof {
                            assert forall|k2: nat| kept_at(kept@, #[trigger] up(pv, h as int, k2)) by {
                                if k2 >= k {
                                    lemma_up_none(pv, h as int, k, k2);
                                }
                            }
                        }
                        break;
                    },
                    Some(c) => {
                        if kept[c] {
                            proof {
                                assert(closed(pv, kept@));
                                assert forall|k2: nat| kept_at(kept@, #[trigger] up(pv, h as int, k2)) by {
                                    if k2 >= k {
                                        lemma_up_add(pv, h as int, k, c as int, (k2 - k) as nat);
                                        lemma_up_kept(pv, kept@, c as int, (k2 - k) as nat);
                                    }
                                }
                            }
                            break;
                        }
                        proof {
                            lemma_num_true_set(kept@, c as int);
                            lemma_num_true_bound(kept@.update(c as int, true));
                        }
                        let ghost old_kept = kept@;
                        kept.set(c, true);
                        let next = pp[c];
                        proof {
                            assert(up(pv, h as int, k + 1) == parent_pos(pv, c as int));
                            assert(kept_by_filter(pv, needle@, c as int)) by {
                                assert(up(pv, h as int, k) == Some(c as int));
                            }
                            assert forall|x: int|
                                0 <= x < kept@.len() && #[trigger] kept@[x] implies match parent_pos(pv, x) {
                                    Some(q) => kept@[q] || opt_pos(next) == Some(q),
                                    None => true,
                                } by {
                                if x != c {
                                    assert(old_kept[x]);
                                    match parent_pos(pv, x) {
                                        Some(q) => {
                                            lemma_pos_of(pv, pv[x].ppid);
                                            if q == c {
                                                assert(kept@[q]);
                                            } else {
                                                assert(old_kept[q]);
                                            }
                                        },
                                        None => {},
                                    }
                                }
                            }
                        }
                        proof {
                            assert forall|h2: int, k2: nat|
                                0 <= h2 < h && hit(pv, needle@, h2) implies kept_at(kept@, #[trigger] up(pv, h2, k2)) by {
                                lemma_up_bounds(pv, h2, k2);
                                assert(kept_at(old_kept, up(pv, h2, k2)));
                            }
                            assert forall|k2: nat| k2 < k + 1 implies kept_at(kept@, #[trigger] up(pv, h as int, k2)) by {
                                lemma_up_bounds(pv, h as int, k2);
                                if k2 < k {
                                    assert(kept_at(old_kept, up(pv, h as int, k2)));
                                }
                            }
                        }
                        cur = next;
                        proof {
                            k = k + 1;
                        }
                    },
                }
            }
        } else {
            proof {
                assert(!hit(pv, needle@, h as int));
            }
        }
        h += 1;
    }
    proof {
        assert forall|i: int| 0 <= i < kept@.len() implies #[trigger] kept@[i] == kept_by_filter(pv, needle@, i) by {
            if kept_by_filter(pv, needle@, i) {
                let (h2, k2) = choose|h2: int, k2: nat|
                    0 <= h2 < pv.len() && hit(pv, needle@, h2) && #[trigger] up(pv, h2, k2) == Some(i);
                assert(up(pv, h2, k2) == Some(i));
            }
        }
    }
    kept
}

pub(crate) proof fn lemma_positions(n: nat, pred: spec_fn(int) -> bool)
    requires
        n <= usize::MAX,
    ensures
        forall|a: int| 0 <= a < positions(n, pred).len() ==> #[trigger] positions(n, pred)[a] < n
            && pred(positions(n, pred)[a] as int),
        forall|a: int, b: int|
            0 <= a < b < positions(n, pred).len() ==> #[trigger] positions(n, pred)[a]
                < #[trigger] positions(n, pred)[b],
        positions(n, pred).no_duplicates(),
        forall|x: int| 0 <= x < n && pred(x) ==> #[trigger] positions(n, pred).contains(x as usize),
    decreases n,
{
    if n > 0 {
        lemma_positions((n - 1) as nat, pred);
        let p = positions((n - 1) as nat, pred);
        if pred(n - 1) {
            assert(positions(n, pred) == p.push((n - 1) as usize));
            assert forall|x: int| 0 <= x < n && pred(x) implies #[trigger] positions(n, pred).contains(x as usize) by {
                if x < n - 1 {
                    assert(p.contains(x as usize));
                    let a = choose|a: int| 0 <= a < p.len() && p[a] == x as usize;
                    assert(positions(n, pred)[a] == x as usize);
                } else {
                    assert(positions(n, pred)[p.len() as int] == x as usize);
                }
            }
        }
        let q = positions(n, pred);
        assert forall|a: int, b: int| 0 <= a < b < q.len() implies #[trigger] q[a] < #[trigger] q[b] by {
            if pred(n - 1) {
                assert(q[a] == p[a]);
                if b < p.len() {
                    assert(q[b] == p[b]);
                }
            }
        }
        assert forall|a: int, b: int| 0 <= a < q.len() && 0 <= b < q.len() && a != b implies q[a] != q[b] by {
            if a < b {
                assert(q[a] < q[b]);
            } else {
                assert(q[b] < q[a]);
            }
        }
    }
}

/// The top-level processes and the children of each process, each list
/// in window order.
fn tree_lists(pp: &Vec<Option<usize>>, inc: &Vec<bool>, Ghost(t): Ghost<Scope>) -> (r: (
    Vec<usize>,
    Vec<Vec<usize>>,
))
    requires
        pp@.len() == inc@.len() == t.procs.len(),
        forall|i: int| 0 <= i < pp@.len() ==> opt_pos(#[trigger] pp@[i]) == parent_pos(t.procs, i),
        forall|i: int| 0 <= i < pp@.len() ==> (#[trigger] pp@[i] matches Some(q) ==> q < pp@.len()),
        forall|i: int| 0 <= i < inc@.len() ==> #[trigger] inc@[i] == included(t, i),
    ensures
        r.0@ == positions(t.procs.len(), |i: int| is_root(t, i)),
        r.1@.len() == t.procs.len(),
        forall|q: int|
            0 <= q < r.1@.len() ==> (#[trigger] r.1@[q])@ == positions(
                t.procs.len(),
                |i: int| is_kid(t, q, i),
            ),
{
    let n = pp.len();
    let mut roots: Vec<usize> = Vec::new();
    let mut children: Vec<Vec<usize>> = Vec::new();
    let mut z: usize = 0;
    while z < n
        invariant
            0 <= z <= n,
            children@.len() == z,
            forall|q: int| 0 <= q < z ==> (#[trigger] children@[q])@ == Seq::<usize>::empty(),
        decreases n - z,
    {
        children.push(Vec::new());
        z += 1;
    }
    let mut i: usize = 0;
    while i < n
        invariant
            0 <= i <= n == pp@.len() == inc@.len() == t.procs.len(),
            forall|k: int| 0 <= k < pp@.len() ==> opt_pos(#[trigger] pp@[k]) == parent_pos(t.procs, k),
            forall|k: int| 0 <= k < pp@.len() ==> (#[trigger] pp@[k] matches Some(q) ==> q < n),
            forall|k: int| 0 <= k < inc@.len() ==> #[trigger] inc@[k] == included(t, k),
            roots@ == positions(i as nat, |x: int| is_root(t, x)),
            children@.len() == n,
            forall|q: int|
                0 <= q < n ==> (#[trigger] children@[q])@ == positions(
                    i as nat,
                    |x: int| is_kid(t, q, x),
                ),
        decreases n - i,
    {
        let ghost old_children = children@;
        if inc[i] {
            let to_parent = match pp[i] {
                Some(q) => inc[q],
                None => false,
            };
            if to_parent {
                let q = match pp[i] {
                    Some(q) => q,
                    None => 0,
                };
                let mut b = children.remove(q);
                b.push(i);
                children.insert(q, b);
                proof {
                    assert(is_kid(t, q as int, i as int));
                    assert(!is_root(t, i as int));
                    assert forall|q2: int| 0 <= q2 < n implies (#[trigger] children@[q2])@ == positions(
                        (i + 1) as nat,
                        |x: int| is_kid(t, q2, x),
                    ) by {
                        if q2 != q {
                            assert(children@[q2] == old_children[q2]);
                            assert(!is_kid(t, q2, i as int));
                        }
                    }
                }
            } else {
                roots.push(i);
                proof {
                    assert(is_root(t, i as int));
                    assert forall|q2: int| 0 <= q2 < n implies (#[trigger] children@[q2])@ == positions(
                        (i + 1) as nat,
                        |x: int| is_kid(t, q2, x),
                    ) by {
                        assert(!is_kid(t, q2, i as int));
                    }
                }
            }
        } else {
            proof {
                assert(!is_root(t, i as int));
                assert forall|q2: int| 0 <= q2 < n implies (#[trigger] children@[q2])@ == positions(
                    (i + 1) as nat,
                    |x: int| is_kid(t, q2, x),
                ) by {
                    assert(!is_kid(t, q2, i as int));
                }
            }
        }
        i += 1;
    }
    (roots, children)
}

/// A path of distinct positions below `n` has at most `n` steps.
proof fn lemma_path_len(path: Seq<int>, n: nat)
    requires
        path.no_duplicates(),
        forall|a: int| 0 <= a < path.len() ==> 0 <= #[trigger] path[a] < n,
    ensures
        path.len() <= n,
{
    path.unique_seq_to_set();
    vstd::set_lib::lemma_int_range(0, n as int);
    assert(path.to_set().subset_of(vstd::set_lib::set_int_range(0, n as int)));
    vstd::set_lib::lemma_len_subset(path.to_set(), vstd::set_lib::set_int_range(0, n as int));
}

/// `path` runs from a top-level process down through children.
pub open spec fn is_path(t: Scope, path: Seq<int>) -> bool {
    &&& path.len() >= 1
    &&& path.no_duplicates()
    &&& forall|a: int| 0 <= a < path.len() ==> 0 <= #[trigger] path[a] < t.procs.len()
    &&& is_root(t, path[0])
    &&& forall|a: int| 1 <= a < path.len() ==> #[trigger] is_kid(t, path[a - 1], path[a])
}

/// `v` followed by the characters of `tail`.
fn with_suffix(v: &Vec<char>, tail: &Vec<char>) -> (r: Vec<char>)
    ensures
        r@ == v@ + tail@,
{
    let mut r: Vec<char> = Vec::new();
    let mut i: usize = 0;
    while i < v.len()
        invariant
            0 <= i <= v.len(),
            r@ == v@.take(i as int),
        decreases v.len() - i,
    {
        r.push(v[i]);
        proof {
            assert(v@.take(i + 1) =~= v@.take(i as int).push(v@[i as int]));
        }
        i += 1;
    }
    let mut j: usize = 0;
    while j < tail.len()
        invariant
            0 <= j <= tail.len(),
            r@ == v@ + tail@.take(j as int),
        decreases tail.len() - j,
    {
        r.push(tail[j]);
        proof {
            assert(tail@.take(j + 1) =~= tail@.take(j as int).push(tail@[j as int]));
            assert(v@ + tail@.take(j + 1) =~= (v@ + tail@.take(j as int)).push(tail@[j as int]));
        }
        j += 1;
    }
    proof {
        assert(v@.take(v.len() as int) =~= v@);
        assert(tail@.take(tail.len() as int) =~= tail@);
    }
    r
}

fn branch_chars(last: bool) -> (r: Vec<char>)
    ensures
        r@ == branch(last),
{
    let mut r: Vec<char> = Vec::new();
    if last {
        r.push('└');
    } else {
        r.push('├');
    }
    r.push('─');
    r.push(' ');
    proof {
        assert(r@ =~= branch(last));
    }
    r
}

fn indent_chars(last: bool) -> (r: Vec<char>)
    ensures
        r@ == indent(last),
{
    let mut r: Vec<char> = Vec::new();
    if last {
        r.push(' ');
    } else {
        r.push('│');
    }
    r.push(' ');
    r.push(' ');
    proof {
        assert(r@ =~= indent(last));
    }
    r
}

/// Appends the rows of process `i` and its descendants, depth first.
fn emit_tree(
    procs: &Vec<Proc>,
    kid_lists: &Vec<Vec<usize>>,
    i: usize,
    prefix: &Vec<char>,
    last: bool,
    out: &mut Vec<Row>,
    Ghost(t): Ghost<Scope>,
    Ghost(path): Ghost<Seq<int>>,
)
    requires
        t.procs == proc_views(procs@),
        kid_lists@.len() == procs@.len(),
        forall|q: int| 0 <= q < kid_lists@.len() ==> (#[trigger] kid_lists@[q])@ == kids(t, q),
        forall|q: int|
            0 <= q < kid_lists@.len() ==> sorting_of(
                ranks(t),
                positions(t.procs.len(), |x: int| is_kid(t, q, x)),
                (#[trigger] kid_lists@[q])@,
            ),
        is_path(t, path),
        path.last() == i,
        path.len() <= procs@.len(),
    ensures
        row_views(final(out)@) == row_views(old(out)@) + subtree(
            t,
            i as int,
            prefix@,
            last,
            (procs@.len() + 1 - path.len()) as nat,
        ),
    decreases procs@.len() + 1 - path.len(),
{
    let ghost n = procs@.len();
    let ghost fuel: nat = (n + 1 - path.len()) as nat;
    let b = branch_chars(last);
    let head = with_suffix(prefix, &b);
    let row = Row::Proc { proc: procs[i].duplicate(), prefix: string_of(&head, 0, head.len()) };
    proof {
        assert(head@.subrange(0, head@.len() as int) =~= head@);
        assert(t.procs[i as int] == procs@[i as int]@);
    }
    let ghost base = row_views(out@);
    out.push(row);
    proof {
        assert(row_views(out@) =~= base + seq![
            RowView::Proc { proc: t.procs[i as int], prefix: prefix@ + branch(last) },
        ]);
    }
    let ghost base1 = row_views(out@);
    let ind = indent_chars(last);
    let cp = with_suffix(prefix, &ind);
    let kl = &kid_lists[i];
    let ghost ks = kids(t, i as int);
    proof {
        assert(kl@ == ks);
    }
    let m = kl.len();
    let nn = procs.len();
    proof {
        assert(n == nn);
    }
    let mut j: usize = 0;
    while j < m
        invariant
            0 <= j <= m == kl@.len(),
            kl@ == ks,
            ks == kids(t, i as int),
            sorting_of(ranks(t), positions(t.procs.len(), |x: int| is_kid(t, i as int, x)), ks),
            t.procs == proc_views(procs@),
            n == procs@.len(),
            n <= usize::MAX,
            fuel == n + 1 - path.len(),
            fuel >= 1,
            kid_lists@.len() == procs@.len(),
            forall|q: int| 0 <= q < kid_lists@.len() ==> (#[trigger] kid_lists@[q])@ == kids(t, q),
            forall|q: int|
                0 <= q < kid_lists@.len() ==> sorting_of(
                    ranks(t),
                    positions(t.procs.len(), |x: int| is_kid(t, q, x)),
                    (#[trigger] kid_lists@[q])@,
                ),
            is_path(t, path),
            path.last() == i,
            path.len() <= n,
            cp@ == prefix@ + indent(last),
            row_views(out@) == base1 + if j < m || m == 0 {
                forest(t, ks.take(j as int), cp@, false, (fuel - 1) as nat)
            } else {
                forest(t, ks, cp@, true, (fuel - 1) as nat)
            },
        decreases m - j,
    {
        let c = kl[j];
        let ghost np = path.push(c as int);
        proof {
            lemma_positions(t.procs.len(), |x: int| is_kid(t, i as int, x));
            let items = positions(t.procs.len(), |x: int| is_kid(t, i as int, x));
            assert(ks.to_set().contains(c));
            assert(items.contains(c));
            let a = choose|a: int| 0 <= a < items.len() && items[a] == c;
            assert(is_kid(t, i as int, c as int));
            assert(np.no_duplicates()) by {
                assert forall|a1: int, a2: int| 0 <= a1 < np.len() && 0 <= a2 < np.len() && a1 != a2 implies np[a1] != np[a2] by {
                    if a2 == np.len() - 1 && a1 < path.len() {
                        assert(np[a1] == path[a1]);
                        if a1 == 0 {
                            assert(!is_root(t, c as int));
                        } else {
                            assert(is_kid(t, path[a1 - 1], path[a1]));
                            if path[a1] == c as int {
                                assert(path[a1 - 1] == i as int);
                                assert(path[a1 - 1] == path[path.len() - 1]);
                            }
                        }
                    } else if a1 == np.len() - 1 && a2 < path.len() {
                        assert(np[a2] == path[a2]);
                        if a2 == 0 {
                            assert(!is_root(t, c as int));
                        } else {
                            assert(is_kid(t, path[a2 - 1], path[a2]));
                            if path[a2] == c as int {
                                assert(path[a2 - 1] == path[path.len() - 1]);
                            }
                        }
                    } else {
                        assert(np[a1] == path[a1] && np[a2] == path[a2]);
                    }
                }
            }
            assert forall|a: int| 0 <= a < np.len() implies 0 <= #[trigger] np[a] < t.procs.len() by {
                if a < path.len() {
                    assert(np[a] == path[a]);
                }
            }
            assert forall|a: int| 1 <= a < np.len() implies #[trigger] is_kid(t, np[a - 1], np[a]) by {
                if a < path.len() {
                    assert(np[a] == path[a] && np[a - 1] == path[a - 1]);
                } else {
                    assert(np[a - 1] == path.last());
                }
            }
            assert(np[0] == path[0]);
            assert(is_path(t, np));
            lemma_path_len(np, n);
        }
        let ghost before = row_views(out@);
        emit_tree(procs, kid_lists, c, &cp, j + 1 == m, out, Ghost(t), Ghost(np));
        proof {
            assert((n + 1 - np.len()) as nat == (fuel - 1) as nat);
            if j + 1 < m {
                assert(ks.take(j + 1).drop_last() =~= ks.take(j as int));
                assert(ks.take(j + 1).last() == c);
                assert(row_views(out@) =~= base1 + forest(t, ks.take(j + 1), cp@, false, (fuel - 1) as nat));
            } else {
                assert(ks.drop_last() =~= ks.take(j as int));
                assert(ks.last() == c);
                assert(row_views(out@) =~= base1 + forest(t, ks, cp@, true, (fuel - 1) as nat));
            }
        }
        j += 1;
    }
    proof {
        if m == 0 {
            assert(ks.take(0) =~= ks);
        }
        assert(row_views(out@) =~= base + subtree(t, i as int, prefix@, last, fuel));
    }
}

pub open spec fn key_views(k: Seq<(String, u32)>) -> Seq<(Seq<char>, u32)> {
    k.map_values(|x: (String, u32)| (x.0@, x.1))
}

/// Whether window `(name, index)` is among `folded`.
pub fn is_folded(folded: &Vec<(String, u32)>, name: &String, index: u32) -> (r: bool)
    ensures
        r == key_views(folded@).contains((name@, index)),
{
    let ghost kv = key_views(folded@);
    let mut i: usize = 0;
    while i < folded.len()
        invariant
            0 <= i <= folded.len(),
            kv == key_views(folded@),
            forall|k: int| 0 <= k < i ==> #[trigger] kv[k] != (name@, index),
        decreases folded.len() - i,
    {
        proof {
            assert(kv[i as int] == (folded@[i as int].0@, folded@[i as int].1));
        }
        if folded[i].1 == index && folded[i].0 == *name {
            proof {
                assert(kv[i as int] == (name@, index));
            }
            return true;
        }
        i += 1;
    }
    proof {
        if kv.contains((name@, index)) {
            let k = choose|k: int| 0 <= k < kv.len() && kv[k] == (name@, index);
        }
    }
    false
}

proof fn lemma_mem_sum_le(procs: Seq<ProcView>, n: nat, pred: spec_fn(int) -> bool)
    ensures
        mem_sum(procs, positions(n, pred)) <= mem_sum(procs, positions(n, |i: int| true)),
    decreases n,
{
    if n > 0 {
        lemma_mem_sum_le(procs, (n - 1) as nat, pred);
        let all = |i: int| true;
        assert(positions(n, all) == positions((n - 1) as nat, all).push((n - 1) as usize));
        assert(positions(n, all).drop_last() =~= positions((n - 1) as nat, all));
        if pred(n - 1) {
            assert(positions(n, pred).drop_last() =~= positions((n - 1) as nat, pred));
        }
    }
}

/// Appends the rows of window `w` of session `session`.
fn window_rows(
    session: &String,
    w: &Window,
    needle: &Vec<char>,
    filtering: bool,
    sort: Sort,
    folded: &Vec<(String, u32)>,
    out: &mut Vec<Row>,
)
    requires
        window_wf(w@),
    ensures
        row_views(final(out)@) == row_views(old(out)@) + window_block(
            session@,
            w@,
            filtering,
            needle@,
            sort,
            key_views(folded@),
        ),
{
    let ghost t = Scope { procs: w@.procs, filtering, needle: needle@, sort };
    let procs = &w.procs;
    let n = procs.len();
    let by_pid = pid_positions(procs);
    let pp = parent_positions(procs, &by_pid);
    let inc: Vec<bool> = if filtering {
        kept_set(procs, &pp, needle)
    } else {
        let mut all: Vec<bool> = Vec::new();
        let mut z: usize = 0;
        while z < n
            invariant
                0 <= z <= n,
                all@.len() == z,
                forall|x: int| 0 <= x < z ==> #[trigger] all@[x],
            decreases n - z,
        {
            all.push(true);
            z += 1;
        }
        all
    };
    proof {
        assert forall|i: int| 0 <= i < inc@.len() implies #[trigger] inc@[i] == included(t, i) by {}
    }
    // the shown processes, their count, CPU readings and memory
    let mut shown: Vec<usize> = Vec::new();
    let mut cpu: Vec<u32> = Vec::new();
    let mut mem: u64 = 0;
    let ghost shown_pred = |i: int| included(t, i);
    proof {
        lemma_mem_sum_le(t.procs, n as nat, shown_pred);
    }
    let mut i: usize = 0;
    while i < n
        invariant
            0 <= i <= n == procs@.len() == inc@.len() == t.procs.len(),
            t.procs == proc_views(procs@),
            forall|k: int| 0 <= k < inc@.len() ==> #[trigger] inc@[k] == included(t, k),
            shown_pred == (|x: int| included(t, x)),
            shown@ == positions(i as nat, shown_pred),
            cpu@ == shown@.map_values(|x: usize| t.procs[x as int].cpu),
            mem as nat == mem_sum(t.procs, shown@),
            mem_sum(t.procs, positions(n as nat, shown_pred)) <= u64::MAX,
            window_wf(w@),
            w@.procs == t.procs,
        decreases n - i,
    {
        if inc[i] {
            proof {
                lemma_mem_prefix(t.procs, (i + 1) as nat, n as nat, shown_pred);
                assert(positions((i + 1) as nat, shown_pred) == shown@.push(i));
                assert(positions((i + 1) as nat, shown_pred).drop_last() =~= shown@);
                assert(t.procs[i as int] == procs@[i as int]@);
            }
            let ghost old_shown = shown@;
            shown.push(i);
            cpu.push(procs[i].cpu);
            mem = mem + procs[i].mem;
            proof {
                assert(cpu@ =~= shown@.map_values(|x: usize| t.procs[x as int].cpu));
            }
        }
        i += 1;
    }
    if filtering && shown.len() == 0 {
        proof {
            assert(row_views(out@) =~= row_views(out@) + Seq::<RowView>::empty());
        }
        return;
    }
    let collapsed = !filtering && is_folded(folded, session, w.index);
    let count = shown.len();
    let header = Row::Window {
        key: (session.clone(), w.index),
        index: w.index,
        name: w.name.clone(),
        active: w.active,
        collapsed,
        count,
        cpu,
        mem,
    };
    let ghost base = row_views(out@);
    out.push(header);
    let ghost base1 = row_views(out@);
    if collapsed {
        proof {
            assert(row_views(out@) =~= base + window_block(session@, w@, filtering, needle@, sort, key_views(folded@)));
        }
        return;
    }
    let (top, children) = tree_lists(&pp, &inc, Ghost(t));
    let keys = rank_keys(procs, sort);
    proof {
        assert(keys@ =~= ranks(t));
        lemma_positions(n as nat, |x: int| is_root(t, x));
    }
    let sorted_roots = sort_positions(&top, &keys);
    proof {
        lemma_sorted_is(keys@, top@, sorted_roots@);
    }
    let mut kid_lists: Vec<Vec<usize>> = Vec::new();
    let mut q: usize = 0;
    while q < n
        invariant
            0 <= q <= n == children@.len() == t.procs.len(),
            keys@ == ranks(t),
            forall|q2: int|
                0 <= q2 < children@.len() ==> (#[trigger] children@[q2])@ == positions(
                    t.procs.len(),
                    |x: int| is_kid(t, q2, x),
                ),
            kid_lists@.len() == q,
            forall|q2: int| 0 <= q2 < q ==> (#[trigger] kid_lists@[q2])@ == kids(t, q2),
            forall|q2: int|
                0 <= q2 < q ==> sorting_of(
                    ranks(t),
                    positions(t.procs.len(), |x: int| is_kid(t, q2, x)),
                    (#[trigger] kid_lists@[q2])@,
                ),
        decreases n - q,
    {
        proof {
            lemma_positions(n as nat, |x: int| is_kid(t, q as int, x));
            assert(children@[q as int]@ == positions(n as nat, |x: int| is_kid(t, q as int, x)));
        }
        let sk = sort_positions(&children[q], &keys);
        proof {
            lemma_sorted_is(keys@, children@[q as int]@, sk@);
        }
        kid_lists.push(sk);
        q += 1;
    }
    let ghost rs = roots(t);
    let empty: Vec<char> = Vec::new();
    let m = sorted_roots.len();
    let mut j: usize = 0;
    while j < m
        invariant
            0 <= j <= m == sorted_roots@.len(),
            sorted_roots@ == rs,
            rs == roots(t),
            sorting_of(ranks(t), positions(t.procs.len(), |x: int| is_root(t, x)), rs),
            t.procs == proc_views(procs@),
            n == procs@.len() == t.procs.len(),
            n <= usize::MAX,
            kid_lists@.len() == n,
            forall|q2: int| 0 <= q2 < kid_lists@.len() ==> (#[trigger] kid_lists@[q2])@ == kids(t, q2),
            forall|q2: int|
                0 <= q2 < kid_lists@.len() ==> sorting_of(
                    ranks(t),
                    positions(t.procs.len(), |x: int| is_kid(t, q2, x)),
                    (#[trigger] kid_lists@[q2])@,
                ),
            empty@ == Seq::<char>::empty(),
            row_views(out@) == base1 + if j < m || m == 0 {
                forest(t, rs.take(j as int), empty@, false, n as nat)
            } else {
                forest(t, rs, empty@, true, n as nat)
            },
        decreases m - j,
    {
        let r = sorted_roots[j];
        let ghost path = seq![r as int];
        proof {
            lemma_positions(n as nat, |x: int| is_root(t, x));
            let items = positions(n as nat, |x: int| is_root(t, x));
            assert(rs.to_set().contains(r));
            assert(items.contains(r));
            let a = choose|a: int| 0 <= a < items.len() && items[a] == r;
            assert(is_root(t, r as int));
            assert(path.no_duplicates());
            assert(is_path(t, path));
        }
        emit_tree(procs, &kid_lists, r, &empty, j + 1 == m, out, Ghost(t), Ghost(path));
        proof {
            if j + 1 < m {
                assert(rs.take(j + 1).drop_last() =~= rs.take(j as int));
                assert(rs.take(j + 1).last() == r);
                assert(row_views(out@) =~= base1 + forest(t, rs.take(j + 1), empty@, false, n as nat));
            } else {
                assert(rs.drop_last() =~= rs.take(j as int));
                assert(rs.last() == r);
                assert(row_views(out@) =~= base1 + forest(t, rs, empty@, true, n as nat));
            }
        }
        j += 1;
    }
    proof {
        if m == 0 {
            assert(rs.take(0) =~= rs);
        }
        assert(row_views(out@) =~= base + window_block(session@, w@, filtering, needle@, sort, key_views(folded@)));
    }
}

proof fn lemma_mem_prefix(procs: Seq<ProcView>, i: nat, n: nat, pred: spec_fn(int) -> bool)
    requires
        i <= n,
    ensures
        mem_sum(procs, positions(i, pred)) <= mem_sum(procs, positions(n, pred)),
    decreases n - i,
{
    if i < n {
        lemma_mem_prefix(procs, i, (n - 1) as nat, pred);
        if pred(n - 1) {
            assert(positions(n, pred).drop_last() =~= positions((n - 1) as nat, pred));
        }
    }
}

/// The visible rows of session `s`: for each window, a header followed by
/// its processes as a tree, under filter text `filter`, sort order `sort`
/// and the folded windows `folded`.
pub fn session_rows_of(s: &Session, filter: &String, sort: Sort, folded: &Vec<(String, u32)>) -> (rows: Vec<
    Row,
>)
    requires
        session_wf(s@),
    ensures
        row_views(rows@) == session_rows(s@, filter@, sort, key_views(folded@)),
{
    let needle = if filter.as_str().unicode_len() == 0 {
        Vec::new()
    } else {
        let lower = to_lowercase(filter.as_str());
        chars_of(lower.as_str())
    };
    session_rows_matching(s, &needle, sort, folded)
}

/// The visible rows of session `s` where the processes are matched
/// against the (already lowercased) text `needle`: an empty needle shows
/// every process.
pub fn session_rows_matching(
    s: &Session,
    needle: &Vec<char>,
    sort: Sort,
    folded: &Vec<(String, u32)>,
) -> (rows: Vec<Row>)
    requires
        session_wf(s@),
    ensures
        row_views(rows@) == blocks(
            s@.name,
            s@.windows,
            needle@.len() > 0,
            needle@,
            sort,
            key_views(folded@),
        ),
{
    let filtering = needle.len() > 0;
    let ghost wv = s@.windows;
    let mut rows: Vec<Row> = Vec::new();
    let mut k: usize = 0;
    proof {
        assert(wv.take(0) =~= Seq::<WindowView>::empty());
    }
    while k < s.windows.len()
        invariant
            0 <= k <= s.windows.len(),
            wv == s@.windows,
            wv.len() == s.windows@.len(),
            session_wf(s@),
            filtering == (needle@.len() > 0),
            row_views(rows@) == blocks(
                s@.name,
                wv.take(k as int),
                filtering,
                needle@,
                sort,
                key_views(folded@),
            ),
        decreases s.windows.len() - k,
    {
        proof {
            assert(wv[k as int] == s.windows@[k as int]@);
            assert(window_wf(wv[k as int]));
            assert(wv.take(k + 1).drop_last() =~= wv.take(k as int));
            assert(wv.take(k + 1).last() == wv[k as int]);
        }
        window_rows(&s.name, &s.windows[k], needle, filtering, sort, folded, &mut rows);
        k += 1;
    }
    proof {
        assert(wv.take(k as int) =~= wv);
    }
    rows
}

/// Whether no two of the windows `ws` share an index.
pub fn windows_apart(ws: &Vec<Window>) -> (r: bool)
    ensures
        r == indices_apart(window_views(ws@)),
{
    let ghost wv = window_views(ws@);
    let mut seen: HashMap<u32, usize> = HashMap::new();
    let mut i: usize = 0;
    while i < ws.len()
        invariant
            0 <= i <= ws.len(),
            wv == window_views(ws@),
            forall|a: int, b: int|
                0 <= a < i && 0 <= b < i && a != b ==> #[trigger] wv[a].index != #[trigger] wv[b].index,
            forall|x: u32| #[trigger] seen@.contains_key(x) <==> exists|a: int| 0 <= a < i && wv[a].index == x,
        decreases ws.len() - i,
    {
        proof {
            assert(wv[i as int] == ws@[i as int]@);
        }
        let x = ws[i].index;
        if seen.contains_key(&x) {
            proof {
                let a = choose|a: int| 0 <= a < i && wv[a].index == x;
                assert(wv[a].index == wv[i as int].index);
            }
            return false;
        }
        seen.insert(x, i);
        proof {
            assert forall|q: u32| #[trigger] seen@.contains_key(q) <==> exists|a: int| 0 <= a < i + 1 && wv[a].index == q by {
                if q == x {
                    assert(wv[i as int].index == q);
                }
            }
        }
        i += 1;
    }
    true
}

/// Whether window `w` meets `window_wf`: distinct PIDs, and memory that
/// adds up within `u64`.
pub fn window_is_wf(w: &Window) -> (r: bool)
    ensures
        r == window_wf(w@),
{
    let ghost pv = w@.procs;
    let ghost all = |i: int| true;
    let mut seen: HashMap<u32, usize> = HashMap::new();
    let mut total: u64 = 0;
    let mut i: usize = 0;
    while i < w.procs.len()
        invariant
            0 <= i <= w.procs.len(),
            pv == w@.procs,
            pv.len() == w.procs@.len(),
            all == (|i: int| true),
            forall|a: int, b: int| 0 <= a < i && 0 <= b < i && a != b ==> #[trigger] pv[a].pid != #[trigger] pv[b].pid,
            forall|p: u32| #[trigger] seen@.contains_key(p) <==> exists|a: int| 0 <= a < i && pv[a].pid == p,
            total as nat == mem_sum(pv, positions(i as nat, all)),
        decreases w.procs.len() - i,
    {
        let p = &w.procs[i];
        proof {
            assert(pv[i as int] == p@);
        }
        if seen.contains_key(&p.pid) {
            proof {
                let a = choose|a: int| 0 <= a < i && pv[a].pid == p.pid;
                assert(pv[a].pid == pv[i as int].pid);
            }
            return false;
        }
        seen.insert(p.pid, i);
        proof {
            assert(positions((i + 1) as nat, all) == positions(i as nat, all).push(i));
            assert(positions((i + 1) as nat, all).drop_last() =~= positions(i as nat, all));
            assert forall|q: u32| #[trigger] seen@.contains_key(q) <==> exists|a: int| 0 <= a < i + 1 && pv[a].pid == q by {
                if q == p.pid {
                    assert(pv[i as int].pid == q);
                }
            }
        }
        match total.checked_add(p.mem) {
            Some(t) => total = t,
            None => {
                proof {
                    lemma_mem_prefix(pv, (i + 1) as nat, pv.len(), all);
                }
                return false;
            },
        }
        i += 1;
    }
    true
}

/// The first position of `r` whose entry does not come before `x`.
spec fn insert_point(keys: Seq<u128>, r: Seq<usize>, x: usize) -> int
    decreases r.len(),
{
    if r.len() == 0 {
        0
    } else if before(keys, r[0], x) {
        1 + insert_point(keys, r.drop_first(), x)
    } else {
        0
    }
}

proof fn lemma_insert_point(keys: Seq<u128>, r: Seq<usize>, x: usize)
    requires
        in_bounds(keys, r),
        x < keys.len(),
        sorted_by(keys, r),
        !r.contains(x),
    ensures
        0 <= insert_point(keys, r, x) <= r.len(),
        forall|k: int| 0 <= k < insert_point(keys, r, x) ==> before(keys, #[trigger] r[k], x),
        forall|k: int| insert_point(keys, r, x) <= k < r.len() ==> before(keys, x, #[trigger] r[k]),
    decreases r.len(),
{
    if r.len() > 0 {
        let t = r.drop_first();
        assert(in_bounds(keys, t));
        assert(sorted_by(keys, t)) by {
            assert forall|a: int, b: int| 0 <= a < b < t.len() implies before(keys, #[trigger] t[a], #[trigger] t[b]) by {
                assert(t[a] == r[a + 1] && t[b] == r[b + 1]);
            }
        }
        assert(!t.contains(x)) by {
            if t.contains(x) {
                let k = choose|k: int| 0 <= k < t.len() && t[k] == x;
                assert(r[k + 1] == x);
            }
        }
        lemma_insert_point(keys, t, x);
        if before(keys, r[0], x) {
            assert forall|k: int| 0 <= k < insert_point(keys, r, x) implies before(keys, #[trigger] r[k], x) by {
                if k > 0 {
                    assert(r[k] == t[k - 1]);
                }
            }
            assert forall|k: int| insert_point(keys, r, x) <= k < r.len() implies before(keys, x, #[trigger] r[k]) by {
                assert(r[k] == t[k - 1]);
            }
        } else {
            assert(r[0] != x);
            assert(before(keys, x, r[0]));
            assert forall|k: int| 0 <= k < r.len() implies before(keys, x, #[trigger] r[k]) by {
                if k > 0 {
                    assert(before(keys, r[0], r[k]));
                }
            }
        }
    }
}

/// Every list of distinct positions has a sorting.
proof fn lemma_sorting_exists(keys: Seq<u128>, items: Seq<usize>)
    requires
        items.no_duplicates(),
        in_bounds(keys, items),
    ensures
        sorting_of(keys, items, sorted(keys, items)),
    decreases items.len(),
{
    if items.len() == 0 {
        let e = Seq::<usize>::empty();
        assert(e.to_set() =~= items.to_set());
        assert(sorting_of(keys, items, e));
    } else {
        let d = items.drop_last();
        let x = items.last();
        assert(d.no_duplicates());
        assert(in_bounds(keys, d));
        lemma_sorting_exists(keys, d);
        let r0 = sorted(keys, d);
        assert(!d.contains(x)) by {
            if d.contains(x) {
                let k = choose|k: int| 0 <= k < d.len() && d[k] == x;
                assert(items[k] == items[items.len() - 1]);
            }
        }
        assert(!r0.contains(x)) by {
            if r0.contains(x) {
                assert(r0.to_set().contains(x));
            }
        }
        assert(x < keys.len());
        lemma_insert_point(keys, r0, x);
        let p = insert_point(keys, r0, x);
        let r = r0.insert(p, x);
        assert forall|a: int, b: int| 0 <= a < b < r.len() implies before(keys, #[trigger] r[a], #[trigger] r[b]) by {
            if b < p {
                assert(r[a] == r0[a] && r[b] == r0[b]);
            } else if b == p {
                assert(r[a] == r0[a]);
            } else if a == p {
                assert(r[b] == r0[b - 1]);
            } else if a < p {
                assert(r[a] == r0[a] && r[b] == r0[b - 1]);
            } else {
                assert(r[a] == r0[a - 1] && r[b] == r0[b - 1]);
            }
        }
        assert(r.no_duplicates()) by {
            assert forall|a: int, b: int| 0 <= a < r.len() && 0 <= b < r.len() && a != b implies r[a] != r[b] by {
                if a < b {
                    assert(before(keys, r[a], r[b]));
                } else {
                    assert(before(keys, r[b], r[a]));
                }
            }
        }
        assert(in_bounds(keys, r)) by {
            assert forall|a: int| 0 <= a < r.len() implies #[trigger] r[a] < keys.len() by {
                if a < p {
                    assert(r[a] == r0[a]);
                } else if a > p {
                    assert(r[a] == r0[a - 1]);
                }
            }
        }
        assert(r.to_set() =~= items.to_set()) by {
            assert forall|y: usize| r.contains(y) <==> items.contains(y) by {
                if r.contains(y) {
                    let k = choose|k: int| 0 <= k < r.len() && r[k] == y;
                    if k < p {
                        assert(r0[k] == y);
                        assert(r0.to_set().contains(y));
                        assert(d.to_set().contains(y));
                        let j = choose|j: int| 0 <= j < d.len() && d[j] == y;
                        assert(items[j] == y);
                    } else if k > p {
                        assert(r0[k - 1] == y);
                        assert(r0.to_set().contains(y));
                        assert(d.to_set().contains(y));
                        let j = choose|j: int| 0 <= j < d.len() && d[j] == y;
                        assert(items[j] == y);
                    } else {
                        assert(items[items.len() - 1] == y);
                    }
                }
                if items.contains(y) {
                    let k = choose|k: int| 0 <= k < items.len() && items[k] == y;
                    if k == items.len() - 1 {
                        assert(r[p] == y);
                    } else {
                        assert(d[k] == y);
                        assert(d.to_set().contains(y));
                        assert(r0.to_set().contains(y));
                        let j = choose|j: int| 0 <= j < r0.len() && r0[j] == y;
                        if j < p {
                            assert(r[j] == y);
                        } else {
                            assert(r[j + 1] == y);
                        }
                    }
                }
            }
        }
        assert(sorting_of(keys, items, r));
    }
}

/// `a` is busier than `b` under sort order `sort`: more CPU (then more
/// memory), or more memory (then more CPU), comparing CPU readings as
/// numbers.
pub open spec fn busier(sort: Sort, a: ProcView, b: ProcView) -> bool {
    match sort {
        Sort::Cpu => cpu_order(a.cpu) > cpu_order(b.cpu) || (cpu_order(a.cpu) == cpu_order(b.cpu)
            && a.mem > b.mem),
        Sort::Mem => a.mem > b.mem || (a.mem == b.mem && cpu_order(a.cpu) > cpu_order(b.cpu)),
    }
}

/// `a` and `b` are just as busy: equal CPU readings and equal memory.
pub open spec fn as_busy(a: ProcView, b: ProcView) -> bool {
    cpu_order(a.cpu) == cpu_order(b.cpu) && a.mem == b.mem
}

/// Process `i` is listed before process `j` among siblings: it is busier,
/// or just as busy and earlier in the window.
pub open spec fn listed_before(t: Scope, i: int, j: int) -> bool {
    busier(t.sort, t.procs[i], t.procs[j]) || (as_busy(t.procs[i], t.procs[j]) && i < j)
}

proof fn lemma_rank(sort: Sort, a: ProcView, b: ProcView)
    ensures
        rank(sort, a) < rank(sort, b) <==> busier(sort, a, b),
        rank(sort, a) == rank(sort, b) <==> as_busy(a, b),
{
}

proof fn lemma_sorted_listed(t: Scope, items: Seq<usize>, r: Seq<usize>)
    requires
        sorting_of(ranks(t), items, r),
    ensures
        forall|a: int, b: int|
            0 <= a < b < r.len() ==> listed_before(t, #[trigger] r[a] as int, #[trigger] r[b] as int),
{
    assert forall|a: int, b: int| 0 <= a < b < r.len() implies listed_before(
        t,
        #[trigger] r[a] as int,
        #[trigger] r[b] as int,
    ) by {
        assert(before(ranks(t), r[a], r[b]));
        lemma_rank(t.sort, t.procs[r[a] as int], t.procs[r[b] as int]);
    }
}

/// The processes at the top of a window's tree are listed busiest first
/// (by the sort metric, then the other one), equally busy ones in window
/// order.
pub proof fn roots_busiest_first(t: Scope)
    requires
        t.procs.len() <= usize::MAX,
    ensures
        forall|a: int, b: int|
            0 <= a < b < roots(t).len() ==> listed_before(
                t,
                #[trigger] roots(t)[a] as int,
                #[trigger] roots(t)[b] as int,
            ),
{
    let items = positions(t.procs.len(), |i: int| is_root(t, i));
    lemma_positions(t.procs.len(), |i: int| is_root(t, i));
    lemma_sorting_exists(ranks(t), items);
    lemma_sorted_listed(t, items, roots(t));
}

/// The children of each process are listed busiest first (by the sort
/// metric, then the other one), equally busy ones in window order.
pub proof fn children_busiest_first(t: Scope, q: int)
    requires
        t.procs.len() <= usize::MAX,
    ensures
        forall|a: int, b: int|
            0 <= a < b < kids(t, q).len() ==> listed_before(
                t,
                #[trigger] kids(t, q)[a] as int,
                #[trigger] kids(t, q)[b] as int,
            ),
{
    let items = positions(t.procs.len(), |i: int| is_kid(t, q, i));
    lemma_positions(t.procs.len(), |i: int| is_kid(t, q, i));
    lemma_sorting_exists(ranks(t), items);
    lemma_sorted_listed(t, items, kids(t, q));
}

/// The children of a process are exactly its shown processes whose parent
/// is it, each once.
pub proof fn children_are_shown_kids(t: Scope, q: int, i: int)
    requires
        t.procs.len() <= usize::MAX,
        0 <= i < t.procs.len(),
    ensures
        kids(t, q).contains(i as usize) <==> is_kid(t, q, i),
        kids(t, q).no_duplicates(),
{
    let items = positions(t.procs.len(), |x: int| is_kid(t, q, x));
    lemma_positions(t.procs.len(), |x: int| is_kid(t, q, x));
    lemma_sorting_exists(ranks(t), items);
    assert(kids(t, q).to_set().contains(i as usize) <==> items.to_set().contains(i as usize));
    if items.contains(i as usize) {
        let a = choose|a: int| 0 <= a < items.len() && items[a] == i as usize;
    }
}

/// The children of a process are a sorting of its shown children.
pub proof fn kids_are_a_sorting(t: Scope, q: int)
    requires
        t.procs.len() <= usize::MAX,
    ensures
        sorting_of(ranks(t), positions(t.procs.len(), |i: int| is_kid(t, q, i)), kids(t, q)),
{
    lemma_positions(t.procs.len(), |i: int| is_kid(t, q, i));
    lemma_sorting_exists(ranks(t), positions(t.procs.len(), |i: int| is_kid(t, q, i)));
}

/// The top-level processes are a sorting of the shown processes without a
/// shown parent.
pub proof fn roots_are_a_sorting(t: Scope)
    requires
        t.procs.len() <= usize::MAX,
    ensures
        sorting_of(ranks(t), positions(t.procs.len(), |i: int| is_root(t, i)), roots(t)),
{
    lemma_positions(t.procs.len(), |i: int| is_root(t, i));
    lemma_sorting_exists(ranks(t), positions(t.procs.len(), |i: int| is_root(t, i)));
}

/// A position below `n` that satisfies `pred` is listed.
pub proof fn lemma_positions_contains(n: nat, pred: spec_fn(int) -> bool, x: int)
    requires
        n <= usize::MAX,
        0 <= x < n,
        pred(x),
    ensures
        positions(n, pred).contains(x as usize),
{
    lemma_positions(n, pred);
}

/// How two processes compare among siblings under sort order `sort`: -1
/// when `a` comes first (it is busier), 1 when `b` does, 0 when they are
/// just as busy (then window order decides).
pub open spec fn proc_cmp(sort: Sort, a: ProcView, b: ProcView) -> int {
    if busier(sort, a, b) {
        -1
    } else if busier(sort, b, a) {
        1
    } else {
        0
    }
}

/// Comparing two processes is an order: swapping them flips the result, a
/// process is as busy as itself, comparison is transitive, equal results
/// are exactly equal CPU readings and memory, and it is the order of the
/// sort keys.
pub proof fn proc_cmp_is_an_order(sort: Sort, a: ProcView, b: ProcView, c: ProcView)
    ensures
        proc_cmp(sort, a, b) == -proc_cmp(sort, b, a),
        proc_cmp(sort, a, a) == 0,
        proc_cmp(sort, a, b) == 0 <==> as_busy(a, b),
        proc_cmp(sort, a, b) == -1 && proc_cmp(sort, b, c) == -1 ==> proc_cmp(sort, a, c) == -1,
        proc_cmp(sort, a, b) == -1 <==> rank(sort, a) < rank(sort, b),
{
    lemma_rank(sort, a, b);
    lemma_rank(sort, b, a);
    lemma_rank(sort, b, c);
    lemma_rank(sort, a, c);
    lemma_rank(sort, a, a);
}

/// Process `x` may come before process `y` among siblings under sort
/// order `sort`, for CPU readings that are non-negative floats (their bit
/// patterns below 2^31, ordered as the numbers are): more of the sort
/// metric, or as much and more of the other, or both equal and `x` earlier
/// in the window.
pub open spec fn may_precede(sort: Sort, p: Seq<ProcView>, x: int, y: int) -> bool {
    let (a, b) = (p[x], p[y]);
    match sort {
        Sort::Cpu => a.cpu > b.cpu || (a.cpu == b.cpu && (a.mem > b.mem || (a.mem == b.mem
            && x < y))),
        Sort::Mem => a.mem > b.mem || (a.mem == b.mem && (a.cpu > b.cpu || (a.cpu == b.cpu
            && x < y))),
    }
}

/// Siblings are listed busiest first: sorted by CPU, a process listed
/// before another has a higher CPU reading, or the same and more memory,
/// or the same of both and comes earlier in the window; sorted by memory,
/// the same with memory first. This holds of the top-level processes and
/// of the children of each process, for non-negative CPU readings.
pub proof fn siblings_listed_busiest_first(t: Scope, q: int, a: int, b: int)
    requires
        t.procs.len() <= usize::MAX,
        forall|i: int| 0 <= i < t.procs.len() ==> (#[trigger] t.procs[i]).cpu < 0x8000_0000,
    ensures
        0 <= a < b < roots(t).len() ==> may_precede(t.sort, t.procs, roots(t)[a] as int, roots(t)[b] as int),
        0 <= a < b < kids(t, q).len() ==> may_precede(t.sort, t.procs, kids(t, q)[a] as int, kids(t, q)[b] as int),
{
    if 0 <= a < b < roots(t).len() {
        roots_busiest_first(t);
        roots_are_a_sorting(t);
        let x = roots(t)[a] as int;
        let y = roots(t)[b] as int;
        assert(listed_before(t, x, y));
        let items = positions(t.procs.len(), |i: int| is_root(t, i));
        lemma_positions(t.procs.len(), |i: int| is_root(t, i));
        assert(roots(t).to_set().contains(roots(t)[a]));
        assert(roots(t).to_set().contains(roots(t)[b]));
        assert(items.contains(roots(t)[a]));
        assert(items.contains(roots(t)[b]));
        assert(t.procs[x].cpu < 0x8000_0000 && t.procs[y].cpu < 0x8000_0000);
    }
    if 0 <= a < b < kids(t, q).len() {
        children_busiest_first(t, q);
        kids_are_a_sorting(t, q);
        let x = kids(t, q)[a] as int;
        let y = kids(t, q)[b] as int;
        assert(listed_before(t, x, y));
        let items = positions(t.procs.len(), |i: int| is_kid(t, q, i));
        lemma_positions(t.procs.len(), |i: int| is_kid(t, q, i));
        assert(kids(t, q).to_set().contains(kids(t, q)[a]));
        assert(kids(t, q).to_set().contains(kids(t, q)[b]));
        assert(items.contains(kids(t, q)[a]));
        assert(items.contains(kids(t, q)[b]));
        assert(t.procs[x].cpu < 0x8000_0000 && t.procs[y].cpu < 0x8000_0000);
    }
}

} // verus!

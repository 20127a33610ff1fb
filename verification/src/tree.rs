//! What the process forest of a window shows: when no process is its own
//! ancestor, every shown process appears exactly once.

use vstd::prelude::*;

use crate::model::{ProcView, SessionView, WindowView};
use crate::rows::{
    blocks, forest, included, is_kid, is_root, kids, kept_by_filter, lemma_up_add, lemma_up_bounds,
    lemma_up_none, parent_pos, positions, roots, subtree, up, session_rows, window_block, RowView, Scope, Sort,
};
use crate::text::{contains, decimal, lowercase};

verus! {

/// The positions of the processes that `subtree` lists, in order.
pub open spec fn sub_pos(t: Scope, i: int, fuel: nat) -> Seq<int>
    decreases fuel, 0nat,
{
    if fuel == 0 {
        Seq::empty()
    } else {
        seq![i] + for_pos(t, kids(t, i), (fuel - 1) as nat)
    }
}

/// The positions of the processes that `forest` lists, in order.
pub open spec fn for_pos(t: Scope, list: Seq<usize>, fuel: nat) -> Seq<int>
    decreases fuel, list.len(),
{
    if list.len() == 0 {
        Seq::empty()
    } else {
        for_pos(t, list.drop_last(), fuel) + sub_pos(t, list.last() as int, fuel)
    }
}

/// No process of the window is its own ancestor.
pub open spec fn no_cycles(procs: Seq<ProcView>) -> bool {
    forall|i: int, k: nat| 0 <= i < procs.len() && k >= 1 ==> #[trigger] up(procs, i, k) != Some(i)
}

/// `rows` are process rows showing the processes at `ps`.
pub open spec fn shows(rows: Seq<RowView>, procs: Seq<ProcView>, ps: Seq<int>) -> bool {
    &&& rows.len() == ps.len()
    &&& forall|k: int|
        0 <= k < rows.len() ==> (#[trigger] rows[k] is Proc) && rows[k]->proc == procs[ps[k]]
}

proof fn lemma_shows_concat(
    a: Seq<RowView>,
    pa: Seq<int>,
    b: Seq<RowView>,
    pb: Seq<int>,
    procs: Seq<ProcView>,
)
    requires
        shows(a, procs, pa),
        shows(b, procs, pb),
    ensures
        shows(a + b, procs, pa + pb),
{
    assert forall|k: int| 0 <= k < (a + b).len() implies (#[trigger] (a + b)[k] is Proc) && (a
        + b)[k]->proc == procs[(pa + pb)[k]] by {
        if k < a.len() {
            assert((a + b)[k] == a[k]);
            assert((pa + pb)[k] == pa[k]);
        } else {
            assert((a + b)[k] == b[k - a.len()]);
            assert((pa + pb)[k] == pb[k - pa.len()]);
        }
    }
}

proof fn lemma_sub_shows(t: Scope, i: int, prefix: Seq<char>, last: bool, fuel: nat)
    ensures
        shows(subtree(t, i, prefix, last, fuel), t.procs, sub_pos(t, i, fuel)),
    decreases fuel, 0nat,
{
    if fuel > 0 {
        let ind = prefix + crate::rows::indent(last);
        lemma_for_shows(t, kids(t, i), ind, true, (fuel - 1) as nat);
        let head = seq![RowView::Proc { proc: t.procs[i], prefix: prefix + crate::rows::branch(last) }];
        assert(shows(head, t.procs, seq![i]));
        lemma_shows_concat(
            head,
            seq![i],
            forest(t, kids(t, i), ind, true, (fuel - 1) as nat),
            for_pos(t, kids(t, i), (fuel - 1) as nat),
            t.procs,
        );
    }
}

pub(crate) proof fn lemma_for_shows(t: Scope, list: Seq<usize>, prefix: Seq<char>, ends: bool, fuel: nat)
    ensures
        shows(forest(t, list, prefix, ends, fuel), t.procs, for_pos(t, list, fuel)),
    decreases fuel, list.len(),
{
    if list.len() > 0 {
        lemma_for_shows(t, list.drop_last(), prefix, false, fuel);
        lemma_sub_shows(t, list.last() as int, prefix, ends, fuel);
        lemma_shows_concat(
            forest(t, list.drop_last(), prefix, false, fuel),
            for_pos(t, list.drop_last(), fuel),
            subtree(t, list.last() as int, prefix, ends, fuel),
            sub_pos(t, list.last() as int, fuel),
            t.procs,
        );
    }
}

/// The parent of a shown process is shown.
proof fn lemma_included_up(t: Scope, x: int, p: int)
    requires
        included(t, x),
        parent_pos(t.procs, x) == Some(p),
    ensures
        included(t, p),
{
    if t.filtering {
        let (h, k) = choose|h: int, k: nat|
            0 <= h < t.procs.len() && crate::rows::hit(t.procs, t.needle, h) && #[trigger] up(
                t.procs,
                h,
                k,
            ) == Some(x);
        assert(up(t.procs, h, k + 1) == Some(p));
        assert(kept_by_filter(t.procs, t.needle, p));
    }
}

/// Every ancestor of a shown process is shown.
proof fn lemma_included_chain(t: Scope, x: int, k: nat)
    requires
        included(t, x),
    ensures
        up(t.procs, x, k) matches Some(y) ==> included(t, y),
    decreases k,
{
    if k > 0 {
        lemma_included_chain(t, x, (k - 1) as nat);
        match up(t.procs, x, (k - 1) as nat) {
            Some(z) => {
                match parent_pos(t.procs, z) {
                    Some(p) => lemma_included_up(t, z, p),
                    None => {},
                }
            },
            None => {},
        }
    }
}

/// The listed positions of a shown process's subtree are shown processes
/// that have it as an ancestor.
proof fn lemma_sub_below(t: Scope, i: int, fuel: nat)
    requires
        t.procs.len() <= usize::MAX,
        0 <= i < t.procs.len(),
        included(t, i),
    ensures
        forall|a: int|
            0 <= a < sub_pos(t, i, fuel).len() ==> {
                let x = #[trigger] sub_pos(t, i, fuel)[a];
                &&& 0 <= x < t.procs.len()
                &&& included(t, x)
                &&& exists|k: nat| up(t.procs, x, k) == Some(i)
            },
    decreases fuel, 0nat,
{
    if fuel > 0 {
        let ks = kids(t, i);
        assert forall|b: int| 0 <= b < ks.len() implies (#[trigger] ks[b]) < t.procs.len() && is_kid(
            t,
            i,
            ks[b] as int,
        ) by {
            assert(ks.contains(ks[b]));
            lemma_kids_members(t, i, ks[b]);
        }
        lemma_for_below(t, ks, i, (fuel - 1) as nat);
        let s = sub_pos(t, i, fuel);
        let rest = for_pos(t, ks, (fuel - 1) as nat);
        assert forall|a: int| 0 <= a < s.len() implies {
            let x = #[trigger] s[a];
            &&& 0 <= x < t.procs.len()
            &&& included(t, x)
            &&& exists|k: nat| up(t.procs, x, k) == Some(i)
        } by {
            if a == 0 {
                assert(s[a] == i);
                assert(up(t.procs, i, 0) == Some(i));
            } else {
                assert(s[a] == rest[a - 1]);
                let x = rest[a - 1];
                let k = choose|k: nat| k >= 1 && up(t.procs, x, k) == Some(i);
            }
        }
    }
}

proof fn lemma_kids_members(t: Scope, q: int, c: usize)
    requires
        t.procs.len() <= usize::MAX,
        kids(t, q).contains(c),
    ensures
        c < t.procs.len(),
        is_kid(t, q, c as int),
{
    let items = positions(t.procs.len(), |x: int| is_kid(t, q, x));
    crate::rows::kids_are_a_sorting(t, q);
    assert(kids(t, q).to_set().contains(c));
    assert(items.to_set().contains(c));
    lemma_positions_members(t.procs.len(), |x: int| is_kid(t, q, x), c);
}

proof fn lemma_positions_members(n: nat, pred: spec_fn(int) -> bool, c: usize)
    requires
        n <= usize::MAX,
        positions(n, pred).contains(c),
    ensures
        c < n,
        pred(c as int),
    decreases n,
{
    if n > 0 {
        if pred(n - 1) && c == (n - 1) as usize {
        } else if pred(n - 1) {
            let p = positions((n - 1) as nat, pred);
            let k = choose|k: int| 0 <= k < positions(n, pred).len() && positions(n, pred)[k] == c;
            assert(p.push((n - 1) as usize)[k] == c);
            if k < p.len() {
                assert(p[k] == c);
            }
            lemma_positions_members((n - 1) as nat, pred, c);
        } else {
            lemma_positions_members((n - 1) as nat, pred, c);
        }
    }
}

proof fn lemma_for_below(t: Scope, list: Seq<usize>, q: int, fuel: nat)
    requires
        t.procs.len() <= usize::MAX,
        0 <= q < t.procs.len(),
        forall|b: int|
            0 <= b < list.len() ==> (#[trigger] list[b]) < t.procs.len() && is_kid(t, q, list[b] as int),
    ensures
        forall|a: int|
            0 <= a < for_pos(t, list, fuel).len() ==> {
                let x = #[trigger] for_pos(t, list, fuel)[a];
                &&& 0 <= x < t.procs.len()
                &&& included(t, x)
                &&& exists|k: nat| k >= 1 && up(t.procs, x, k) == Some(q)
            },
    decreases fuel, list.len(),
{
    if list.len() > 0 {
        let d = list.drop_last();
        let c = list.last() as int;
        assert(is_kid(t, q, c));
        lemma_for_below(t, d, q, fuel);
        lemma_sub_below(t, c, fuel);
        let f = for_pos(t, list, fuel);
        let fd = for_pos(t, d, fuel);
        let sc = sub_pos(t, c, fuel);
        assert forall|a: int| 0 <= a < f.len() implies {
            let x = #[trigger] f[a];
            &&& 0 <= x < t.procs.len()
            &&& included(t, x)
            &&& exists|k: nat| k >= 1 && up(t.procs, x, k) == Some(q)
        } by {
            if a < fd.len() {
                assert(f[a] == fd[a]);
            } else {
                assert(f[a] == sc[a - fd.len()]);
                let x = sc[a - fd.len()];
                let k = choose|k: nat| up(t.procs, x, k) == Some(c);
                lemma_up_add(t.procs, x, k, c, 1);
                assert(up(t.procs, c, 1) == Some(q));
                assert(up(t.procs, x, k + 1) == Some(q));
            }
        }
    }
}

/// A path of distinct positions below `n` has at most `n` steps.
proof fn lemma_distinct_len(path: Seq<int>, n: nat)
    requires
        path.no_duplicates(),
        forall|a: int| 0 <= a < path.len() ==> 0 <= #[trigger] path[a] < n,
    ensures
        path.len() <= n,
{
    path.unique_seq_to_set();
    vstd::set_lib::lemma_int_range(0, n as int);
    assert(path.to_set().subset_of(vstd::set_lib::set_int_range(0, n as int)));
    vstd::set_lib::lemma_len_subset(path.to_set(), vstd::set_lib::set_int_range(0, n as int));
}

/// Without cycles the ancestors of a process are distinct.
proof fn lemma_chain_distinct(procs: Seq<ProcView>, x: int, a: nat, b: nat)
    requires
        no_cycles(procs),
        0 <= x < procs.len(),
        a < b,
        up(procs, x, b) is Some,
    ensures
        up(procs, x, a) != up(procs, x, b),
{
    if up(procs, x, a) == up(procs, x, b) {
        let y = up(procs, x, a)->0;
        lemma_up_bounds(procs, x, a);
        lemma_up_add(procs, x, a, y, (b - a) as nat);
        assert(up(procs, y, (b - a) as nat) == Some(y));
    }
}

/// Without cycles, the ancestors of a shown process lead to a top-level
/// process fewer than `n` steps up.
proof fn lemma_root_at(t: Scope, x: int, k: nat) -> (d: nat)
    requires
        no_cycles(t.procs),
        0 <= x < t.procs.len(),
        included(t, x),
        up(t.procs, x, k) is Some,
        k < t.procs.len(),
    ensures
        d < t.procs.len(),
        up(t.procs, x, d) is Some,
        is_root(t, up(t.procs, x, d)->0),
    decreases t.procs.len() - k,
{
    let y = up(t.procs, x, k)->0;
    lemma_up_bounds(t.procs, x, k);
    lemma_included_chain(t, x, k);
    match parent_pos(t.procs, y) {
        None => {
            assert(is_root(t, y));
            k
        },
        Some(p) => {
            assert(up(t.procs, x, k + 1) == Some(p));
            let path = Seq::new((k + 2) as nat, |j: int| up(t.procs, x, j as nat)->0);
            assert forall|j: int| 0 <= j < path.len() implies (#[trigger] up(t.procs, x, j as nat)) is Some by {
                if up(t.procs, x, j as nat) is None {
                    lemma_up_none(t.procs, x, j as nat, (k + 1) as nat);
                }
            }
            assert(path.no_duplicates()) by {
                assert forall|a: int, b: int| 0 <= a < path.len() && 0 <= b < path.len() && a != b implies path[a] != path[b] by {
                    if a < b {
                        lemma_chain_distinct(t.procs, x, a as nat, b as nat);
                    } else {
                        lemma_chain_distinct(t.procs, x, b as nat, a as nat);
                    }
                }
            }
            assert forall|a: int| 0 <= a < path.len() implies 0 <= #[trigger] path[a] < t.procs.len() by {
                lemma_up_bounds(t.procs, x, a as nat);
            }
            lemma_distinct_len(path, t.procs.len());
            lemma_root_at(t, x, k + 1)
        },
    }
}

/// A top-level process has no parent in the window.
proof fn lemma_root_parentless(t: Scope, r: int)
    requires
        is_root(t, r),
    ensures
        parent_pos(t.procs, r) is None,
{
    match parent_pos(t.procs, r) {
        Some(p) => lemma_included_up(t, r, p),
        None => {},
    }
}

proof fn lemma_for_contains(t: Scope, list: Seq<usize>, c: usize, fuel: nat, x: int)
    requires
        list.contains(c),
        sub_pos(t, c as int, fuel).contains(x),
    ensures
        for_pos(t, list, fuel).contains(x),
    decreases list.len(),
{
    let d = list.drop_last();
    let f = for_pos(t, list, fuel);
    let fd = for_pos(t, d, fuel);
    let sl = sub_pos(t, list.last() as int, fuel);
    if list.last() == c {
        let a = choose|a: int| 0 <= a < sl.len() && sl[a] == x;
        assert(f[fd.len() + a] == x);
    } else {
        let k = choose|k: int| 0 <= k < list.len() && list[k] == c;
        assert(d[k] == c);
        lemma_for_contains(t, d, c, fuel, x);
        let a = choose|a: int| 0 <= a < fd.len() && fd[a] == x;
        assert(f[a] == x);
    }
}

proof fn lemma_for_member(t: Scope, list: Seq<usize>, fuel: nat, x: int)
    requires
        for_pos(t, list, fuel).contains(x),
    ensures
        exists|c: usize| list.contains(c) && #[trigger] sub_pos(t, c as int, fuel).contains(x),
    decreases list.len(),
{
    let d = list.drop_last();
    let f = for_pos(t, list, fuel);
    let fd = for_pos(t, d, fuel);
    let c = list.last();
    let sl = sub_pos(t, c as int, fuel);
    let a = choose|a: int| 0 <= a < f.len() && f[a] == x;
    if a < fd.len() {
        assert(fd[a] == x);
        lemma_for_member(t, d, fuel, x);
        let c2 = choose|c2: usize| d.contains(c2) && #[trigger] sub_pos(t, c2 as int, fuel).contains(x);
        let k = choose|k: int| 0 <= k < d.len() && d[k] == c2;
        assert(list[k] == c2);
    } else {
        assert(sl[a - fd.len()] == x);
        assert(list[list.len() - 1] == c);
        assert(sl.contains(x));
    }
}

/// A shown process is listed in the subtree of each of its ancestors that
/// is at most `fuel - 1` steps up.
proof fn lemma_in_sub(t: Scope, x: int, j: nat, fuel: nat)
    requires
        t.procs.len() <= usize::MAX,
        0 <= x < t.procs.len(),
        included(t, x),
        up(t.procs, x, j) is Some,
        fuel > j,
    ensures
        sub_pos(t, up(t.procs, x, j)->0, fuel).contains(x),
    decreases j,
{
    let y = up(t.procs, x, j)->0;
    let s = sub_pos(t, y, fuel);
    if j == 0 {
        assert(s[0] == x);
    } else {
        let z = up(t.procs, x, (j - 1) as nat)->0;
        assert(up(t.procs, x, (j - 1) as nat) is Some);
        assert(parent_pos(t.procs, z) == Some(y));
        lemma_up_bounds(t.procs, x, (j - 1) as nat);
        lemma_up_bounds(t.procs, x, j);
        lemma_included_chain(t, x, (j - 1) as nat);
        lemma_included_chain(t, x, j);
        assert(is_kid(t, y, z));
        crate::rows::kids_are_a_sorting(t, y);
        crate::rows::lemma_positions_contains(t.procs.len(), |i: int| is_kid(t, y, i), z);
        let items = positions(t.procs.len(), |i: int| is_kid(t, y, i));
        assert(items.to_set().contains(z as usize));
        assert(kids(t, y).to_set().contains(z as usize));
        assert(kids(t, y).contains(z as usize));
        lemma_in_sub(t, x, (j - 1) as nat, (fuel - 1) as nat);
        lemma_for_contains(t, kids(t, y), z as usize, (fuel - 1) as nat, x);
        let rest = for_pos(t, kids(t, y), (fuel - 1) as nat);
        let a = choose|a: int| 0 <= a < rest.len() && rest[a] == x;
        assert(s[a + 1] == x);
    }
}

/// Two processes with the same parent (or both without one) have disjoint
/// subtrees.
proof fn lemma_siblings_disjoint(t: Scope, a: int, b: int, fa: nat, fb: nat, x: int)
    requires
        t.procs.len() <= usize::MAX,
        no_cycles(t.procs),
        0 <= a < t.procs.len(),
        0 <= b < t.procs.len(),
        a != b,
        included(t, a),
        included(t, b),
        parent_pos(t.procs, a) == parent_pos(t.procs, b),
    ensures
        !(sub_pos(t, a, fa).contains(x) && sub_pos(t, b, fb).contains(x)),
{
    if sub_pos(t, a, fa).contains(x) && sub_pos(t, b, fb).contains(x) {
        lemma_sub_below(t, a, fa);
        lemma_sub_below(t, b, fb);
        let ia = choose|i: int| 0 <= i < sub_pos(t, a, fa).len() && sub_pos(t, a, fa)[i] == x;
        let ib = choose|i: int| 0 <= i < sub_pos(t, b, fb).len() && sub_pos(t, b, fb)[i] == x;
        assert(sub_pos(t, a, fa)[ia] == x);
        assert(sub_pos(t, b, fb)[ib] == x);
        let ka = choose|k: nat| up(t.procs, x, k) == Some(a);
        let kb = choose|k: nat| up(t.procs, x, k) == Some(b);
        if ka < kb {
            lemma_sibling_above(t, x, ka, kb, a, b);
        } else if kb < ka {
            lemma_sibling_above(t, x, kb, ka, b, a);
        }
    }
}

proof fn lemma_sibling_above(t: Scope, x: int, ka: nat, kb: nat, a: int, b: int)
    requires
        no_cycles(t.procs),
        0 <= x < t.procs.len(),
        ka < kb,
        up(t.procs, x, ka) == Some(a),
        up(t.procs, x, kb) == Some(b),
    ensures
        parent_pos(t.procs, a) != parent_pos(t.procs, b),
{
    let m = (kb - ka) as nat;
    lemma_up_add(t.procs, x, ka, a, m);
    assert(up(t.procs, a, m) == Some(b));
    lemma_up_bounds(t.procs, x, ka);
    lemma_up_add(t.procs, a, m, b, 1);
    assert(up(t.procs, a, m + 1) == parent_pos(t.procs, b));
    if parent_pos(t.procs, a) == parent_pos(t.procs, b) {
        assert(up(t.procs, a, 0) == Some(a));
        match parent_pos(t.procs, a) {
            None => {
                assert(up(t.procs, a, 1) is None);
                lemma_up_none(t.procs, a, 1, m);
            },
            Some(p) => {
                assert(up(t.procs, a, 1) == Some(p));
                lemma_up_add(t.procs, a, 1, p, m);
                assert(up(t.procs, p, m) == Some(p));
                lemma_up_bounds(t.procs, a, 1);
            },
        }
    }
}

proof fn lemma_sub_nodup(t: Scope, i: int, fuel: nat)
    requires
        t.procs.len() <= usize::MAX,
        no_cycles(t.procs),
        0 <= i < t.procs.len(),
        included(t, i),
    ensures
        sub_pos(t, i, fuel).no_duplicates(),
    decreases fuel, 0nat,
{
    if fuel > 0 {
        let ks = kids(t, i);
        crate::rows::kids_are_a_sorting(t, i);
        assert forall|b: int| 0 <= b < ks.len() implies (#[trigger] ks[b]) < t.procs.len() && is_kid(
            t,
            i,
            ks[b] as int,
        ) by {
            assert(ks.contains(ks[b]));
            lemma_kids_members(t, i, ks[b]);
        }
        lemma_for_nodup(t, ks, parent_pos(t.procs, ks[0] as int), (fuel - 1) as nat);
        lemma_for_below(t, ks, i, (fuel - 1) as nat);
        let rest = for_pos(t, ks, (fuel - 1) as nat);
        let s = sub_pos(t, i, fuel);
        assert(!rest.contains(i)) by {
            if rest.contains(i) {
                let a = choose|a: int| 0 <= a < rest.len() && rest[a] == i;
                let k = choose|k: nat| k >= 1 && up(t.procs, rest[a], k) == Some(i);
            }
        }
        assert forall|a: int, b: int| 0 <= a < s.len() && 0 <= b < s.len() && a != b implies s[a] != s[b] by {
            if a == 0 {
                assert(s[b] == rest[b - 1]);
            } else if b == 0 {
                assert(s[a] == rest[a - 1]);
            } else {
                assert(s[a] == rest[a - 1] && s[b] == rest[b - 1]);
            }
        }
    }
}

proof fn lemma_for_nodup(t: Scope, list: Seq<usize>, par: Option<int>, fuel: nat)
    requires
        t.procs.len() <= usize::MAX,
        no_cycles(t.procs),
        list.no_duplicates(),
        forall|b: int|
            0 <= b < list.len() ==> (#[trigger] list[b]) < t.procs.len() && included(t, list[b] as int)
                && parent_pos(t.procs, list[b] as int) == par,
    ensures
        for_pos(t, list, fuel).no_duplicates(),
    decreases fuel, list.len(),
{
    if list.len() > 0 {
        let d = list.drop_last();
        let c = list.last();
        assert(d.no_duplicates());
        lemma_for_nodup(t, d, par, fuel);
        assert(list[list.len() - 1] == c);
        lemma_sub_nodup(t, c as int, fuel);
        let fd = for_pos(t, d, fuel);
        let sc = sub_pos(t, c as int, fuel);
        let f = for_pos(t, list, fuel);
        assert forall|a: int, b: int| 0 <= a < f.len() && 0 <= b < f.len() && a != b implies f[a] != f[b] by {
            if a < fd.len() && b >= fd.len() {
                lemma_cross(t, d, c, par, fuel, fd[a], sc[b - fd.len()]);
            } else if b < fd.len() && a >= fd.len() {
                lemma_cross(t, d, c, par, fuel, fd[b], sc[a - fd.len()]);
            } else if a < fd.len() {
                assert(f[a] == fd[a] && f[b] == fd[b]);
            } else {
                assert(f[a] == sc[a - fd.len()] && f[b] == sc[b - fd.len()]);
            }
        }
    }
}

proof fn lemma_cross(t: Scope, d: Seq<usize>, c: usize, par: Option<int>, fuel: nat, x: int, y: int)
    requires
        t.procs.len() <= usize::MAX,
        no_cycles(t.procs),
        !d.contains(c),
        c < t.procs.len(),
        included(t, c as int),
        parent_pos(t.procs, c as int) == par,
        forall|b: int|
            0 <= b < d.len() ==> (#[trigger] d[b]) < t.procs.len() && included(t, d[b] as int)
                && parent_pos(t.procs, d[b] as int) == par,
        for_pos(t, d, fuel).contains(x),
        sub_pos(t, c as int, fuel).contains(y),
    ensures
        x != y,
{
    if x == y {
        lemma_for_member(t, d, fuel, x);
        let c2 = choose|c2: usize| d.contains(c2) && #[trigger] sub_pos(t, c2 as int, fuel).contains(x);
        let k = choose|k: int| 0 <= k < d.len() && d[k] == c2;
        assert(d[k] == c2);
        lemma_siblings_disjoint(t, c2 as int, c as int, fuel, fuel, x);
    }
}

/// When no process of a window is its own ancestor, its process forest
/// shows every shown process (a filter match, an ancestor of one, or any
/// process without a filter) exactly once.
pub proof fn forest_shows_each_process_once(t: Scope)
    requires
        t.procs.len() <= usize::MAX,
        no_cycles(t.procs),
    ensures
        shows(
            forest(t, roots(t), Seq::empty(), true, t.procs.len()),
            t.procs,
            for_pos(t, roots(t), t.procs.len()),
        ),
        for_pos(t, roots(t), t.procs.len()).no_duplicates(),
        forall|x: int|
            0 <= x < t.procs.len() ==> (for_pos(t, roots(t), t.procs.len()).contains(x)
                <==> included(t, x)),
        forall|a: int|
            0 <= a < for_pos(t, roots(t), t.procs.len()).len() ==> 0 <= #[trigger] for_pos(
                t,
                roots(t),
                t.procs.len(),
            )[a] < t.procs.len(),
{
    let n = t.procs.len();
    let rs = roots(t);
    lemma_for_shows(t, rs, Seq::empty(), true, n);
    crate::rows::roots_are_a_sorting(t);
    let items = positions(n, |i: int| is_root(t, i));
    assert forall|b: int| 0 <= b < rs.len() implies (#[trigger] rs[b]) < t.procs.len() && included(
        t,
        rs[b] as int,
    ) && parent_pos(t.procs, rs[b] as int) == None::<int> by {
        assert(rs.to_set().contains(rs[b]));
        assert(items.to_set().contains(rs[b]));
        assert(items.contains(rs[b]));
        lemma_positions_members(n, |i: int| is_root(t, i), rs[b]);
        lemma_root_parentless(t, rs[b] as int);
    }
    lemma_for_nodup(t, rs, None, n);
    assert forall|a: int| 0 <= a < for_pos(t, rs, n).len() implies 0 <= #[trigger] for_pos(t, rs, n)[a]
        < n by {
        let x = for_pos(t, rs, n)[a];
        assert(for_pos(t, rs, n).contains(x));
        lemma_for_member(t, rs, n, x);
        let c = choose|c: usize| rs.contains(c) && #[trigger] sub_pos(t, c as int, n).contains(x);
        let b = choose|b: int| 0 <= b < rs.len() && rs[b] == c;
        assert(rs[b] == c);
        lemma_sub_below(t, c as int, n);
        let e = choose|e: int| 0 <= e < sub_pos(t, c as int, n).len() && sub_pos(t, c as int, n)[e] == x;
        assert(sub_pos(t, c as int, n)[e] == x);
    }
    assert forall|x: int| 0 <= x < n implies (for_pos(t, rs, n).contains(x) <==> included(t, x)) by {
        if for_pos(t, rs, n).contains(x) {
            lemma_for_member(t, rs, n, x);
            let c = choose|c: usize| rs.contains(c) && #[trigger] sub_pos(t, c as int, n).contains(x);
            let b = choose|b: int| 0 <= b < rs.len() && rs[b] == c;
            assert(rs[b] == c);
            lemma_sub_below(t, c as int, n);
            let a = choose|a: int| 0 <= a < sub_pos(t, c as int, n).len() && sub_pos(t, c as int, n)[a] == x;
            assert(sub_pos(t, c as int, n)[a] == x);
        }
        if included(t, x) {
            let d = lemma_root_at(t, x, 0);
            let r = up(t.procs, x, d)->0;
            lemma_in_sub(t, x, d, n);
            lemma_up_bounds(t.procs, x, d);
            crate::rows::lemma_positions_contains(n, |i: int| is_root(t, i), r);
            assert(items.to_set().contains(r as usize));
            assert(rs.to_set().contains(r as usize));
            assert(rs.contains(r as usize));
            lemma_for_contains(t, rs, r as usize, n, x);
        }
    }
}

/// Under a filter (its lowercased text `needle`, not empty), when no
/// process of the window is its own ancestor: a process whose command
/// line, lowercased as `str::to_lowercase` does, or whose decimal PID
/// contains the text is shown among the window's rows, and so is each of
/// its ancestors in the window.
pub proof fn filter_shows_matches_and_ancestors(
    session: Seq<char>,
    w: WindowView,
    needle: Seq<char>,
    sort: Sort,
    folded: Seq<(Seq<char>, u32)>,
    i: int,
    k: nat,
)
    requires
        needle.len() > 0,
        w.procs.len() <= usize::MAX,
        no_cycles(w.procs),
        0 <= i < w.procs.len(),
        contains(lowercase(w.procs[i].command), needle) || contains(
            decimal(w.procs[i].pid as nat),
            needle,
        ),
        up(w.procs, i, k) is Some,
    ensures
        ({
            let block = window_block(session, w, true, needle, sort, folded);
            exists|r: int|
                0 <= r < block.len() && #[trigger] block[r] is Proc && block[r]->proc
                    == w.procs[up(w.procs, i, k)->0]
        }),
{
    let t = Scope { procs: w.procs, filtering: true, needle, sort };
    let n = w.procs.len();
    let a = up(w.procs, i, k)->0;
    lemma_up_bounds(w.procs, i, k);
    assert(crate::rows::hit(w.procs, needle, i));
    assert(up(w.procs, i, k) == Some(a));
    assert(kept_by_filter(w.procs, needle, a));
    assert(included(t, a));
    forest_shows_each_process_once(t);
    let ps = for_pos(t, roots(t), n);
    let f = forest(t, roots(t), Seq::empty(), true, n);
    assert(ps.contains(a));
    let j = choose|j: int| 0 <= j < ps.len() && ps[j] == a;
    assert(f[j] is Proc && f[j]->proc == w.procs[ps[j]]);
    let pred = |x: int| included(t, x);
    crate::rows::lemma_positions_contains(n, pred, a);
    let shown = positions(n, pred);
    assert(shown.len() > 0);
    let block = window_block(session, w, true, needle, sort, folded);
    assert(block[j + 1] == f[j]);
}

/// Under a filter (its lowercased text `needle`, not empty), when no
/// process of the window is its own ancestor, every process row shown for
/// the window is a process whose command line, lowercased as
/// `str::to_lowercase` does, or whose decimal PID contains the text, or an
/// ancestor of such a process.
pub proof fn filter_shows_only_matches_and_ancestors(
    session: Seq<char>,
    w: WindowView,
    needle: Seq<char>,
    sort: Sort,
    folded: Seq<(Seq<char>, u32)>,
    r: int,
)
    requires
        needle.len() > 0,
        w.procs.len() <= usize::MAX,
        no_cycles(w.procs),
        0 <= r < window_block(session, w, true, needle, sort, folded).len(),
        window_block(session, w, true, needle, sort, folded)[r] is Proc,
    ensures
        exists|x: int, h: int, k: nat|
            #![trigger up(w.procs, h, k), w.procs[x]]
            0 <= x < w.procs.len() && 0 <= h < w.procs.len()
                && window_block(session, w, true, needle, sort, folded)[r]->proc == w.procs[x]
                && up(w.procs, h, k) == Some(x) && (contains(
                lowercase(w.procs[h].command),
                needle,
            ) || contains(decimal(w.procs[h].pid as nat), needle)),
{
    let t = Scope { procs: w.procs, filtering: true, needle, sort };
    let n = w.procs.len();
    forest_shows_each_process_once(t);
    let ps = for_pos(t, roots(t), n);
    let f = forest(t, roots(t), Seq::empty(), true, n);
    let block = window_block(session, w, true, needle, sort, folded);
    assert(r >= 1);
    assert(block[r] == f[r - 1]);
    let x = ps[r - 1];
    assert(0 <= x < n);
    assert(ps.contains(x));
    assert(included(t, x));
    let (h, k) = choose|h: int, k: nat|
        0 <= h < w.procs.len() && crate::rows::hit(w.procs, needle, h) && #[trigger] up(
            w.procs,
            h,
            k,
        ) == Some(x);
    assert(up(w.procs, h, k) == Some(x));
    assert(block[r]->proc == w.procs[x]);
}

/// Each row of a window's block stands among the rows of its session.
proof fn lemma_block_in_blocks(
    name: Seq<char>,
    ws: Seq<WindowView>,
    filtering: bool,
    needle: Seq<char>,
    sort: Sort,
    folded: Seq<(Seq<char>, u32)>,
    j: int,
    r: int,
)
    requires
        0 <= j < ws.len(),
        0 <= r < window_block(name, ws[j], filtering, needle, sort, folded).len(),
    ensures
        exists|q: int|
            0 <= q < blocks(name, ws, filtering, needle, sort, folded).len() && #[trigger] blocks(
                name,
                ws,
                filtering,
                needle,
                sort,
                folded,
            )[q] == window_block(name, ws[j], filtering, needle, sort, folded)[r],
    decreases ws.len(),
{
    let d = ws.drop_last();
    let p = blocks(name, d, filtering, needle, sort, folded);
    let all = blocks(name, ws, filtering, needle, sort, folded);
    let b = window_block(name, ws.last(), filtering, needle, sort, folded);
    assert(all == p + b);
    if j == ws.len() - 1 {
        assert(ws[j] == ws.last());
        assert(all[p.len() + r] == b[r]);
    } else {
        assert(d[j] == ws[j]);
        lemma_block_in_blocks(name, d, filtering, needle, sort, folded, j, r);
        let q = choose|q: int|
            0 <= q < p.len() && #[trigger] p[q] == window_block(name, d[j], filtering, needle, sort, folded)[r];
        assert(all[q] == p[q]);
    }
}

/// Under a filter whose lowercased text is not empty, in a window where no
/// process is its own ancestor: a process whose command line, lowercased
/// as `str::to_lowercase` does, or whose decimal PID contains the
/// lowercased filter text is shown among the session's rows (the rows
/// `App::rows` gives for the session), and so is each of its ancestors in
/// the window.
pub proof fn session_rows_show_filter_matches(
    s: SessionView,
    filter: Seq<char>,
    sort: Sort,
    folded: Seq<(Seq<char>, u32)>,
    j: int,
    i: int,
    k: nat,
)
    requires
        filter.len() > 0,
        lowercase(filter).len() > 0,
        0 <= j < s.windows.len(),
        s.windows[j].procs.len() <= usize::MAX,
        no_cycles(s.windows[j].procs),
        0 <= i < s.windows[j].procs.len(),
        contains(lowercase(s.windows[j].procs[i].command), lowercase(filter)) || contains(
            decimal(s.windows[j].procs[i].pid as nat),
            lowercase(filter),
        ),
        up(s.windows[j].procs, i, k) is Some,
    ensures
        ({
            let rows = session_rows(s, filter, sort, folded);
            exists|q: int|
                0 <= q < rows.len() && #[trigger] rows[q] is Proc && rows[q]->proc
                    == s.windows[j].procs[up(s.windows[j].procs, i, k)->0]
        }),
{
    let needle = lowercase(filter);
    let w = s.windows[j];
    filter_shows_matches_and_ancestors(s.name, w, needle, sort, folded, i, k);
    let block = window_block(s.name, w, true, needle, sort, folded);
    let r = choose|r: int|
        0 <= r < block.len() && #[trigger] block[r] is Proc && block[r]->proc == w.procs[up(
            w.procs,
            i,
            k,
        )->0];
    lemma_block_in_blocks(s.name, s.windows, true, needle, sort, folded, j, r);
    let rows = session_rows(s, filter, sort, folded);
    assert(rows == blocks(s.name, s.windows, true, needle, sort, folded));
    let q = choose|q: int|
        0 <= q < rows.len() && #[trigger] rows[q] == block[r];
    assert(rows[q] is Proc);
}

/// Every row of a forest drawn under `p` is a process row whose prefix
/// starts with `p` and goes on for at least one three-character step.
proof fn lemma_forest_prefix(t: Scope, list: Seq<usize>, p: Seq<char>, ends: bool, fuel: nat)
    ensures
        forall|r: int|
            0 <= r < forest(t, list, p, ends, fuel).len() ==> {
                let row = #[trigger] forest(t, list, p, ends, fuel)[r];
                &&& row is Proc
                &&& row->prefix.len() >= p.len() + 3
                &&& row->prefix.subrange(0, p.len() as int) == p
            },
    decreases fuel, list.len(),
{
    if list.len() > 0 {
        let d = forest(t, list.drop_last(), p, false, fuel);
        let sub = subtree(t, list.last() as int, p, ends, fuel);
        lemma_forest_prefix(t, list.drop_last(), p, false, fuel);
        lemma_subtree_prefix(t, list.last() as int, p, ends, fuel);
        let f = forest(t, list, p, ends, fuel);
        assert(f == d + sub);
        assert forall|r: int| 0 <= r < f.len() implies {
            let row = #[trigger] f[r];
            &&& row is Proc
            &&& row->prefix.len() >= p.len() + 3
            &&& row->prefix.subrange(0, p.len() as int) == p
        } by {
            if r < d.len() {
                assert(f[r] == d[r]);
            } else {
                assert(f[r] == sub[r - d.len()]);
            }
        }
    }
}

proof fn lemma_subtree_prefix(t: Scope, i: int, p: Seq<char>, last: bool, fuel: nat)
    ensures
        forall|r: int|
            0 <= r < subtree(t, i, p, last, fuel).len() ==> {
                let row = #[trigger] subtree(t, i, p, last, fuel)[r];
                &&& row is Proc
                &&& row->prefix.len() >= p.len() + 3
                &&& row->prefix.subrange(0, p.len() as int) == p
            },
    decreases fuel, 0nat,
{
    if fuel > 0 {
        let ind = p + crate::rows::indent(last);
        let rest = forest(t, kids(t, i), ind, true, (fuel - 1) as nat);
        lemma_forest_prefix(t, kids(t, i), ind, true, (fuel - 1) as nat);
        let sub = subtree(t, i, p, last, fuel);
        let head = RowView::Proc { proc: t.procs[i], prefix: p + crate::rows::branch(last) };
        assert(sub == seq![head] + rest);
        assert forall|r: int| 0 <= r < sub.len() implies {
            let row = #[trigger] sub[r];
            &&& row is Proc
            &&& row->prefix.len() >= p.len() + 3
            &&& row->prefix.subrange(0, p.len() as int) == p
        } by {
            if r == 0 {
                assert((p + crate::rows::branch(last)).subrange(0, p.len() as int) =~= p);
            } else {
                assert(sub[r] == rest[r - 1]);
                let pre = rest[r - 1]->prefix;
                assert(pre.subrange(0, ind.len() as int) == ind);
                assert(pre.subrange(0, p.len() as int) =~= ind.subrange(0, p.len() as int));
                assert(ind.subrange(0, p.len() as int) =~= p);
            }
        }
    }
}

/// How the tree is drawn: the row of a process shows the prefix of its
/// level, then `└─ ` when it is the last of its siblings and `├─ ` when it
/// is not; the rows of its descendants all start with that prefix and
/// then three spaces under a last sibling, or `│  ` under another.
pub proof fn tree_branches(t: Scope, i: int, prefix: Seq<char>, last: bool, fuel: nat)
    requires
        fuel > 0,
    ensures
        ({
            let rows = subtree(t, i, prefix, last, fuel);
            let mark = if last {
                seq!['└', '─', ' ']
            } else {
                seq!['├', '─', ' ']
            };
            let bar = if last {
                seq![' ', ' ', ' ']
            } else {
                seq!['│', ' ', ' ']
            };
            &&& rows.len() >= 1
            &&& rows[0] == (RowView::Proc { proc: t.procs[i], prefix: prefix + mark })
            &&& forall|r: int|
                1 <= r < rows.len() ==> (#[trigger] rows[r]) is Proc && rows[r]->prefix.subrange(
                    0,
                    prefix.len() + 3int,
                ) == prefix + bar
        }),
{
    let bar = if last {
        seq![' ', ' ', ' ']
    } else {
        seq!['│', ' ', ' ']
    };
    let ind = prefix + crate::rows::indent(last);
    assert(ind =~= prefix + bar);
    let rest = forest(t, kids(t, i), ind, true, (fuel - 1) as nat);
    lemma_forest_prefix(t, kids(t, i), ind, true, (fuel - 1) as nat);
    let rows = subtree(t, i, prefix, last, fuel);
    assert forall|r: int| 1 <= r < rows.len() implies (#[trigger] rows[r]) is Proc && rows[r]->prefix.subrange(
        0,
        prefix.len() + 3int,
    ) == prefix + bar by {
        assert(rows[r] == rest[r - 1]);
    }
}

/// A window's rows start with its header, keyed and titled by its session
/// and window, folded exactly when the window is in the folded list and no
/// filter applies. Folded, the header stands alone; otherwise, when no
/// process of the window is its own ancestor, it is followed by exactly as
/// many process rows as its count says.
pub proof fn window_header_counts_its_rows(
    session: Seq<char>,
    w: WindowView,
    filtering: bool,
    needle: Seq<char>,
    sort: Sort,
    folded: Seq<(Seq<char>, u32)>,
)
    requires
        w.procs.len() <= usize::MAX,
        no_cycles(w.procs),
        window_block(session, w, filtering, needle, sort, folded).len() > 0,
    ensures
        ({
            let b = window_block(session, w, filtering, needle, sort, folded);
            &&& b[0] is Window
            &&& b[0]->key == (session, w.index)
            &&& b[0]->index == w.index
            &&& b[0]->name == w.name
            &&& b[0]->active == w.active
            &&& b[0]->collapsed == (!filtering && folded.contains((session, w.index)))
            &&& b[0]->collapsed ==> b.len() == 1
            &&& !b[0]->collapsed ==> b.len() == b[0]->count + 1
            &&& forall|r: int| 1 <= r < b.len() ==> #[trigger] b[r] is Proc
        }),
{
    let t = Scope { procs: w.procs, filtering, needle, sort };
    let n = w.procs.len();
    let b = window_block(session, w, filtering, needle, sort, folded);
    let pred = |i: int| included(t, i);
    let shown = positions(n, pred);
    forest_shows_each_process_once(t);
    crate::rows::lemma_positions(n, pred);
    let fp = for_pos(t, roots(t), n);
    let f = forest(t, roots(t), Seq::empty(), true, n);
    let si = shown.map_values(|u: usize| u as int);
    let all = Set::new(|x: int| 0 <= x < n && included(t, x));
    assert(si.no_duplicates()) by {
        assert forall|a: int, c: int| 0 <= a < si.len() && 0 <= c < si.len() && a != c implies si[a]
            != si[c] by {
            assert(shown[a] != shown[c]);
        }
    }
    assert(si.to_set() =~= all) by {
        assert forall|x: int| si.to_set().contains(x) implies all.contains(x) by {
            let a = choose|a: int| 0 <= a < si.len() && si[a] == x;
            assert(shown[a] < n && pred(shown[a] as int));
        }
        assert forall|x: int| all.contains(x) implies si.to_set().contains(x) by {
            assert(pred(x));
            assert(shown.contains(x as usize));
            let a = choose|a: int| 0 <= a < shown.len() && shown[a] == x as usize;
            assert(si[a] == x);
        }
    }
    assert(fp.to_set() =~= all) by {
        assert forall|x: int| fp.to_set().contains(x) implies all.contains(x) by {
            let a = choose|a: int| 0 <= a < fp.len() && fp[a] == x;
            assert(0 <= fp[a] < n);
        }
    }
    si.unique_seq_to_set();
    fp.unique_seq_to_set();
    assert(fp.len() == shown.len());
    assert forall|r: int| 1 <= r < b.len() implies #[trigger] b[r] is Proc by {
        assert(b[r] == f[r - 1]);
    }
}

} // verus!

//! Folding a window header and unfolding it again.

use vstd::prelude::*;

use crate::app::{app_rows, press, sessions_wf, step, toggled, without, AppView, Key};
use crate::model::WindowView;
use crate::rows::{blocks, forest, indices_apart, roots, window_block, Scope, Sort};

verus! {

proof fn lemma_without_contains(c: Seq<(Seq<char>, u32)>, key: (Seq<char>, u32), x: (
    Seq<char>,
    u32,
))
    ensures
        without(c, key).contains(x) <==> (c.contains(x) && x != key),
    decreases c.len(),
{
    if c.len() > 0 {
        let d = c.drop_last();
        lemma_without_contains(d, key, x);
        if c.contains(x) && x != key {
            let k = choose|k: int| 0 <= k < c.len() && c[k] == x;
            if k < d.len() {
                assert(d[k] == x);
            }
        }
        if d.contains(x) {
            let k = choose|k: int| 0 <= k < d.len() && d[k] == x;
            assert(c[k] == x);
        }
        if c.last() != key {
            let w = without(d, key);
            assert(w.push(c.last())[w.len() as int] == c.last());
            if w.contains(x) {
                let k = choose|k: int| 0 <= k < w.len() && w[k] == x;
                assert(w.push(c.last())[k] == x);
            }
            if w.push(c.last()).contains(x) && x != c.last() {
                let k = choose|k: int| 0 <= k < w.len() + 1 && w.push(c.last())[k] == x;
                assert(w[k] == x);
            }
        }
    }
}

/// Fold lists that agree on the windows of a session give it the same rows.
proof fn lemma_blocks_agree(
    name: Seq<char>,
    ws: Seq<WindowView>,
    filtering: bool,
    needle: Seq<char>,
    sort: Sort,
    f1: Seq<(Seq<char>, u32)>,
    f2: Seq<(Seq<char>, u32)>,
)
    requires
        forall|a: int|
            0 <= a < ws.len() ==> f1.contains((name, #[trigger] ws[a].index)) == f2.contains(
                (name, ws[a].index),
            ),
    ensures
        blocks(name, ws, filtering, needle, sort, f1) == blocks(name, ws, filtering, needle, sort, f2),
    decreases ws.len(),
{
    if ws.len() > 0 {
        let d = ws.drop_last();
        assert forall|a: int| 0 <= a < d.len() implies f1.contains((name, #[trigger] d[a].index))
            == f2.contains((name, d[a].index)) by {
            assert(d[a] == ws[a]);
        }
        lemma_blocks_agree(name, d, filtering, needle, sort, f1, f2);
        assert(ws[ws.len() - 1] == ws.last());
    }
}

/// Every row of a process forest is a process row.
proof fn lemma_forest_procs(t: Scope, list: Seq<usize>, prefix: Seq<char>, ends: bool, fuel: nat)
    ensures
        forall|k: int|
            0 <= k < forest(t, list, prefix, ends, fuel).len() ==> #[trigger] forest(
                t,
                list,
                prefix,
                ends,
                fuel,
            )[k] is Proc,
{
    crate::tree::lemma_for_shows(t, list, prefix, ends, fuel);
}

/// Where the fold lists differ only on the key of a window header, that
/// header keeps its place, and each list's header says whether the list
/// folds that window.
proof fn lemma_header_kept(
    name: Seq<char>,
    ws: Seq<WindowView>,
    needle: Seq<char>,
    sort: Sort,
    f1: Seq<(Seq<char>, u32)>,
    f2: Seq<(Seq<char>, u32)>,
    s: int,
)
    requires
        indices_apart(ws),
        0 <= s < blocks(name, ws, false, needle, sort, f1).len(),
        blocks(name, ws, false, needle, sort, f1)[s] is Window,
        forall|x: (Seq<char>, u32)|
            x != blocks(name, ws, false, needle, sort, f1)[s]->key ==> f1.contains(x)
                == f2.contains(x),
    ensures
        ({
            let r1 = blocks(name, ws, false, needle, sort, f1);
            let r2 = blocks(name, ws, false, needle, sort, f2);
            &&& s < r2.len()
            &&& r2[s] is Window
            &&& r2[s]->key == r1[s]->key
            &&& r1[s]->collapsed == f1.contains(r1[s]->key)
            &&& r2[s]->collapsed == f2.contains(r1[s]->key)
        }),
    decreases ws.len(),
{
    let d = ws.drop_last();
    let w = ws.last();
    let p1 = blocks(name, d, false, needle, sort, f1);
    let p2 = blocks(name, d, false, needle, sort, f2);
    let b1 = window_block(name, w, false, needle, sort, f1);
    let b2 = window_block(name, w, false, needle, sort, f2);
    let r1 = blocks(name, ws, false, needle, sort, f1);
    assert(r1 == p1 + b1);
    assert forall|a: int, b: int|
        0 <= a < d.len() && 0 <= b < d.len() && a != b implies #[trigger] d[a].index
        != #[trigger] d[b].index by {
        assert(d[a] == ws[a] && d[b] == ws[b]);
    }
    if s < p1.len() {
        assert(r1[s] == p1[s]);
        lemma_header_kept(name, d, needle, sort, f1, f2, s);
    } else {
        let t = Scope { procs: w.procs, filtering: false, needle, sort };
        let n = w.procs.len();
        lemma_forest_procs(t, roots(t), Seq::empty(), true, n);
        assert(r1[s] == b1[s - p1.len()]);
        assert(s == p1.len());
        let key = (name, w.index);
        assert(r1[s]->key == key);
        assert forall|a: int| 0 <= a < d.len() implies f1.contains((name, #[trigger] d[a].index))
            == f2.contains((name, d[a].index)) by {
            assert(d[a] == ws[a]);
            assert(ws[ws.len() - 1] == w);
            assert(ws[a].index != ws[ws.len() - 1].index);
        }
        lemma_blocks_agree(name, d, false, needle, sort, f1, f2);
        assert(blocks(name, ws, false, needle, sort, f2) == p2 + b2);
        assert(blocks(name, ws, false, needle, sort, f2)[s] == b2[0]);
    }
}

/// With no filter text, folding or unfolding the selected window header keeps that
/// header in place with its fold flipped; doing so again gives back the
/// same rows and the same set of folded windows, and changes nothing else.
pub proof fn fold_twice_restores(v: AppView)
    requires
        v.filter.len() == 0,
        sessions_wf(v.sessions),
    ensures
        toggled(v).selected == v.selected,
        v.selected < app_rows(v).len() ==> v.selected < app_rows(toggled(v)).len(),
        v.selected < app_rows(v).len() && app_rows(v)[v.selected as int] is Window ==> {
            let h = app_rows(v)[v.selected as int];
            let h1 = app_rows(toggled(v))[v.selected as int];
            &&& h1 is Window
            &&& h1->key == h->key
            &&& h1->collapsed == !h->collapsed
        },
        toggled(toggled(v)).selected == v.selected,
        toggled(toggled(v)).collapsed.to_set() == v.collapsed.to_set(),
        app_rows(toggled(toggled(v))) == app_rows(v),
        toggled(toggled(v)) == (AppView { collapsed: toggled(toggled(v)).collapsed, ..v }),
{
    let rows = app_rows(v);
    let v1 = toggled(v);
    let v2 = toggled(v1);
    if v.selected_tab < v.sessions.len() {
        assert(crate::rows::session_wf(v.sessions[v.selected_tab as int]));
    }
    if v.selected_tab < v.sessions.len() && v.selected < rows.len() && rows[v.selected as int] is Window {
        let se = v.sessions[v.selected_tab as int];
        let needle = Seq::<char>::empty();
        let s = v.selected as int;
        let key = rows[s]->key;
        let c = v.collapsed;
        assert(rows == blocks(se.name, se.windows, false, needle, v.sort, c));
        lemma_header_kept(se.name, se.windows, needle, v.sort, c, c, s);
        let c1 = v1.collapsed;
        assert forall|x: (Seq<char>, u32)| x != key implies c.contains(x) == c1.contains(x) by {
            lemma_without_contains(c, key, x);
            if c.push(key).contains(x) {
                let k = choose|k: int| 0 <= k < c.len() + 1 && c.push(key)[k] == x;
                assert(c[k] == x);
            }
            if c.contains(x) {
                let k = choose|k: int| 0 <= k < c.len() && c[k] == x;
                assert(c.push(key)[k] == x);
            }
        }
        lemma_without_contains(c, key, key);
        assert(c.push(key)[c.len() as int] == key);
        assert(c1.contains(key) == !c.contains(key));
        lemma_header_kept(se.name, se.windows, needle, v.sort, c, c1, s);
        let rows1 = app_rows(v1);
        assert(rows1 == blocks(se.name, se.windows, false, needle, v.sort, c1));
        let c2 = v2.collapsed;
        assert forall|x: (Seq<char>, u32)| #![auto] c2.contains(x) == c.contains(x) by {
            lemma_without_contains(c1, key, x);
            if c1.push(key).contains(x) {
                let k = choose|k: int| 0 <= k < c1.len() + 1 && c1.push(key)[k] == x;
                if k < c1.len() {
                    assert(c1[k] == x);
                }
            }
            if c1.contains(x) {
                let k = choose|k: int| 0 <= k < c1.len() && c1[k] == x;
                assert(c1.push(key)[k] == x);
            }
            assert(c1.push(key)[c1.len() as int] == key);
        }
        assert(c2.to_set() =~= c.to_set());
        assert forall|a: int| 0 <= a < se.windows.len() implies c.contains(
            (se.name, #[trigger] se.windows[a].index),
        ) == c2.contains((se.name, se.windows[a].index)) by {}
        lemma_blocks_agree(se.name, se.windows, false, needle, v.sort, c, c2);
    }
}

/// With no filter text and not typing one: pressing Enter on a window header flips its
/// fold and leaves the selection on it, and pressing Enter again gives
/// back the same rows and the same set of folded windows, and changes
/// nothing else.
pub proof fn enter_twice_restores(v: AppView)
    requires
        !v.filtering,
        v.filter.len() == 0,
        v.selected < app_rows(v).len() || v.selected == 0,
        sessions_wf(v.sessions),
    ensures
        ({
            let w1 = step(v, press(Key::Enter)).0;
            let w2 = step(w1, press(Key::Enter)).0;
            &&& v.selected < app_rows(v).len() && app_rows(v)[v.selected as int] is Window ==> {
                let h = app_rows(v)[v.selected as int];
                let h1 = app_rows(w1)[v.selected as int];
                &&& w1.selected == v.selected
                &&& h1 is Window
                &&& h1->key == h->key
                &&& h1->collapsed == !h->collapsed
            }
            &&& app_rows(w2) == app_rows(v)
            &&& w2.collapsed.to_set() == v.collapsed.to_set()
            &&& w2 == (AppView { collapsed: w2.collapsed, ..v })
        }),
{
    fold_twice_restores(v);
    let v1 = toggled(v);
    fold_twice_restores(v1);
    assert(step(v, press(Key::Enter)).0 == crate::app::clamped(v1));
    assert(crate::app::clamped(v1) == v1);
    assert(step(v1, press(Key::Enter)).0 == crate::app::clamped(toggled(v1)));
    assert(app_rows(toggled(v1)) == app_rows(v));
}

} // verus!

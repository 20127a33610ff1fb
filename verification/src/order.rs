//! Sorting positions by an integer key, ties kept in position order.

use vstd::prelude::*;

verus! {

/// Position `a` comes before position `b`: a smaller key, or the same key
/// and an earlier position.
pub open spec fn before(keys: Seq<u128>, a: usize, b: usize) -> bool {
    keys[a as int] < keys[b as int] || (keys[a as int] == keys[b as int] && a < b)
}

/// `r` lists its positions in the order `before` gives.
pub open spec fn sorted_by(keys: Seq<u128>, r: Seq<usize>) -> bool {
    forall|i: int, j: int| 0 <= i < j < r.len() ==> before(keys, #[trigger] r[i], #[trigger] r[j])
}

/// Every position of `r` indexes `keys`.
pub open spec fn in_bounds(keys: Seq<u128>, r: Seq<usize>) -> bool {
    forall|i: int| 0 <= i < r.len() ==> #[trigger] r[i] < keys.len()
}

/// Sorts `items` (distinct positions into `keys`) by key, then by position:
/// the order a stable sort by key gives to positions listed in increasing
/// order.
pub fn sort_positions(items: &Vec<usize>, keys: &Vec<u128>) -> (r: Vec<usize>)
    requires
        items@.no_duplicates(),
        in_bounds(keys@, items@),
    ensures
        r@.no_duplicates(),
        r@.to_set() == items@.to_set(),
        r@.len() == items@.len(),
        in_bounds(keys@, r@),
        sorted_by(keys@, r@),
{
    let mut r: Vec<usize> = Vec::new();
    let mut i: usize = 0;
    while i < items.len()
        invariant
            0 <= i <= items.len(),
            items@.no_duplicates(),
            in_bounds(keys@, items@),
            r@.no_duplicates(),
            r@.to_set() == items@.take(i as int).to_set(),
            r@.len() == i,
            in_bounds(keys@, r@),
            sorted_by(keys@, r@),
        decreases items.len() - i,
    {
        let x = items[i];
        let kx = keys[x];
        let mut p: usize = 0;
        while p < r.len() && (keys[r[p]] < kx || (keys[r[p]] == kx && r[p] < x))
            invariant
                0 <= p <= r.len(),
                in_bounds(keys@, r@),
                x < keys.len(),
                kx == keys@[x as int],
                forall|k: int| 0 <= k < p ==> before(keys@, #[trigger] r@[k], x),
            decreases r.len() - p,
        {
            p += 1;
        }
        proof {
            assert(!items@.take(i as int).contains(x)) by {
                if items@.take(i as int).contains(x) {
                    let k = choose|k: int| 0 <= k < i && items@.take(i as int)[k] == x;
                    assert(items@[k] == items@[i as int]);
                }
            }
            assert(!r@.contains(x)) by {
                if r@.contains(x) {
                    let k = choose|k: int| 0 <= k < r@.len() && r@[k] == x;
                    assert(r@.to_set().contains(x));
                }
            }
            if p < r.len() {
                assert(!before(keys@, r@[p as int], x));
                assert(r@[p as int] != x);
            }
        }
        let ghost old_r = r@;
        r.insert(p, x);
        proof {
            assert(r@ =~= old_r.insert(p as int, x));
            assert forall|a: int, b: int| 0 <= a < b < r@.len() implies before(
                keys@,
                #[trigger] r@[a],
                #[trigger] r@[b],
            ) by {
                if b < p {
                    assert(r@[a] == old_r[a] && r@[b] == old_r[b]);
                } else if b == p {
                    assert(r@[a] == old_r[a]);
                } else if a == p {
                    assert(r@[b] == old_r[b - 1]);
                    if b - 1 > p {
                        assert(before(keys@, old_r[p as int], old_r[b - 1]));
                    }
                } else if a < p {
                    assert(r@[a] == old_r[a] && r@[b] == old_r[b - 1]);
                } else {
                    assert(r@[a] == old_r[a - 1] && r@[b] == old_r[b - 1]);
                }
            }
            assert(r@.no_duplicates()) by {
                assert forall|a: int, b: int| 0 <= a < r@.len() && 0 <= b < r@.len() && a != b implies r@[a] != r@[b] by {
                    if a < b {
                        assert(before(keys@, r@[a], r@[b]));
                    } else {
                        assert(before(keys@, r@[b], r@[a]));
                    }
                }
            }
            assert(items@.take(i + 1) =~= items@.take(i as int).push(x));
            assert forall|y: usize| r@.contains(y) <==> old_r.contains(y) || y == x by {
                    if r@.contains(y) {
                        let k = choose|k: int| 0 <= k < r@.len() && r@[k] == y;
                        if k < p {
                            assert(old_r[k] == y);
                        } else if k > p {
                            assert(old_r[k - 1] == y);
                        }
                    }
                    if old_r.contains(y) {
                        let k = choose|k: int| 0 <= k < old_r.len() && old_r[k] == y;
                        if k < p {
                            assert(r@[k] == y);
                        } else {
                            assert(r@[k + 1] == y);
                        }
                    }
                    if y == x {
                        assert(r@[p as int] == x);
                    }
            }
            assert(r@.to_set() =~= old_r.to_set().insert(x));
            assert(items@.take(i + 1).to_set() =~= items@.take(i as int).to_set().insert(x)) by {
                Seq::<usize>::lemma_to_set_insert_commutes(items@.take(i as int), x);
                assert(items@.take(i + 1) =~= items@.take(i as int) + seq![x]);
            }
        }
        i += 1;
    }
    proof {
        assert(items@.take(items.len() as int) =~= items@);
    }
    r
}

} // verus!

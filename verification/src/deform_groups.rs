//! Coaxial deformation groups: for every pusher, the node sets that move with its head
//! (extending) or with its body (retracting); pushers whose actions move the same nodes
//! the same way act together as one group.
use vstd::prelude::*;

use std::collections::HashSet;

use crate::cell::Cell;
use crate::ids::BlockId;
use crate::structure::DeformGroup;
use crate::deform::{DeformGraph, DeformPusher};
use crate::materials::{ids_sorted, lemma_sorted_unique, same_ids};
use crate::signals::cell_lt;

verus! {

/// Sequences of identities in lexicographic order (a proper prefix comes first).
pub open spec fn seq_lt(a: Seq<u64>, b: Seq<u64>) -> bool
    decreases a.len(),
{
    if a.len() == 0 {
        b.len() > 0
    } else if b.len() == 0 {
        false
    } else if a[0] != b[0] {
        a[0] < b[0]
    } else {
        seq_lt(a.drop_first(), b.drop_first())
    }
}

pub proof fn lemma_seq_lt_irreflexive(a: Seq<u64>)
    ensures
        !seq_lt(a, a),
    decreases a.len(),
{
    if a.len() > 0 {
        lemma_seq_lt_irreflexive(a.drop_first());
    }
}

pub proof fn lemma_seq_lt_transitive(a: Seq<u64>, b: Seq<u64>, c: Seq<u64>)
    requires
        seq_lt(a, b),
        seq_lt(b, c),
    ensures
        seq_lt(a, c),
    decreases a.len(),
{
    if a.len() > 0 && b.len() > 0 && c.len() > 0 && a[0] == b[0] && b[0] == c[0] {
        lemma_seq_lt_transitive(a.drop_first(), b.drop_first(), c.drop_first());
    }
}

pub proof fn lemma_seq_lt_total(a: Seq<u64>, b: Seq<u64>)
    requires
        a != b,
    ensures
        seq_lt(a, b) || seq_lt(b, a),
    decreases a.len(),
{
    if a.len() == 0 && b.len() == 0 {
        assert(a =~= b);
    } else if a.len() > 0 && b.len() > 0 && a[0] == b[0] {
        if a.drop_first() == b.drop_first() {
            assert(a =~= seq![a[0]] + a.drop_first());
            assert(b =~= seq![b[0]] + b.drop_first());
        }
        lemma_seq_lt_total(a.drop_first(), b.drop_first());
    }
}

pub proof fn lemma_seq_lt_asymmetric(a: Seq<u64>, b: Seq<u64>)
    requires
        seq_lt(a, b),
    ensures
        !seq_lt(b, a),
    decreases a.len(),
{
    if a.len() > 0 && b.len() > 0 && a[0] == b[0] {
        lemma_seq_lt_asymmetric(a.drop_first(), b.drop_first());
    }
}

/// Whether `a` comes before `b` in lexicographic order.
pub fn seq_less(a: &Vec<u64>, b: &Vec<u64>) -> (r: bool)
    ensures
        r == seq_lt(a@, b@),
{
    let mut i: usize = 0;
    proof {
        assert(a@.skip(0) =~= a@);
        assert(b@.skip(0) =~= b@);
    }
    while i < a.len() && i < b.len()
        invariant
            i <= a@.len(),
            i <= b@.len(),
            seq_lt(a@, b@) == seq_lt(a@.skip(i as int), b@.skip(i as int)),
        decreases a@.len() - i,
    {
        if a[i] != b[i] {
            return a[i] < b[i];
        }
        proof {
            assert(a@.skip(i as int).drop_first() =~= a@.skip(i + 1));
            assert(b@.skip(i as int).drop_first() =~= b@.skip(i + 1));
        }
        i = i + 1;
    }
    i == a.len() && i < b.len()
}

/// Group keys, (nodes, direction), ordered by nodes and then by direction.
pub open spec fn key_lt(n1: Seq<u64>, d1: Cell, n2: Seq<u64>, d2: Cell) -> bool {
    seq_lt(n1, n2) || (n1 == n2 && cell_lt(d1, d2))
}

pub proof fn lemma_key_lt_transitive(n1: Seq<u64>, d1: Cell, n2: Seq<u64>, d2: Cell, n3: Seq<u64>, d3: Cell)
    requires
        key_lt(n1, d1, n2, d2),
        key_lt(n2, d2, n3, d3),
    ensures
        key_lt(n1, d1, n3, d3),
{
    if seq_lt(n1, n2) && seq_lt(n2, n3) {
        lemma_seq_lt_transitive(n1, n2, n3);
    }
}

pub proof fn lemma_key_lt_total(n1: Seq<u64>, d1: Cell, n2: Seq<u64>, d2: Cell)
    requires
        n1 != n2 || d1 != d2,
    ensures
        key_lt(n1, d1, n2, d2) || key_lt(n2, d2, n1, d1),
{
    if n1 != n2 {
        lemma_seq_lt_total(n1, n2);
    }
}

pub proof fn lemma_key_lt_asymmetric(n1: Seq<u64>, d1: Cell, n2: Seq<u64>, d2: Cell)
    requires
        key_lt(n1, d1, n2, d2),
    ensures
        !key_lt(n2, d2, n1, d1),
        n1 != n2 || d1 != d2,
{
    if seq_lt(n1, n2) {
        lemma_seq_lt_asymmetric(n1, n2);
        lemma_seq_lt_irreflexive(n1);
    } else {
        lemma_seq_lt_irreflexive(n1);
    }
}

/// Pusher actions (body, extending?) ordered by body, extending first.
pub open spec fn act_lt(a: (u64, bool), b: (u64, bool)) -> bool {
    a.0 < b.0 || (a.0 == b.0 && a.1 && !b.1)
}


/// Whether `a` comes before `b` in (x, y, z) order.
pub fn cell_less(a: Cell, b: Cell) -> (r: bool)
    ensures
        r == cell_lt(a, b),
{
    a.x < b.x || (a.x == b.x && a.y < b.y) || (a.x == b.x && a.y == b.y && a.z < b.z)
}

/// Whether the key (n1, d1) comes before the key (n2, d2).
pub fn key_less(n1: &Vec<u64>, d1: Cell, n2: &Vec<u64>, d2: Cell) -> (r: bool)
    ensures
        r == key_lt(n1@, d1, n2@, d2),
{
    seq_less(n1, n2) || (same_ids(n1, n2) && cell_less(d1, d2))
}

/// A group being gathered: the nodes it moves, the direction they move in, and the
/// actions that move them so.
pub struct DeformEntry {
    pub nodes: Vec<u64>,
    pub dir: Cell,
    pub actions: Vec<(u64, bool)>,
}

pub open spec fn acts_sorted(a: Seq<(u64, bool)>) -> bool {
    forall|i: int, j: int| 0 <= i < j < a.len() ==> act_lt(a[i], a[j])
}

/// Entries in strictly increasing key order, each with a non-empty sorted action list.
pub open spec fn entries_ok(g: Seq<DeformEntry>) -> bool {
    &&& forall|i: int, j: int| 0 <= i < j < g.len() ==> key_lt(g[i].nodes@, g[i].dir, g[j].nodes@, g[j].dir)
    &&& forall|i: int| 0 <= i < g.len() ==> acts_sorted(#[trigger] g[i].actions@) && g[i].actions@.len() > 0
}

/// Some entry has the key (n, d).
pub open spec fn has_entry(g: Seq<DeformEntry>, n: Seq<u64>, d: Cell) -> bool {
    exists|i: int| #![trigger g[i]] 0 <= i < g.len() && g[i].nodes@ == n && g[i].dir == d
}

/// The entry with key (n, d) lists the action `a`.
pub open spec fn entry_holds(g: Seq<DeformEntry>, n: Seq<u64>, d: Cell, a: (u64, bool)) -> bool {
    exists|i: int| #![trigger g[i]] 0 <= i < g.len() && g[i].nodes@ == n && g[i].dir == d && g[i].actions@.contains(a)
}

/// Adds an action to a sorted action list, once.
fn insert_action(v: &mut Vec<(u64, bool)>, a: (u64, bool))
    requires
        acts_sorted(old(v)@),
    ensures
        acts_sorted(final(v)@),
        forall|b: (u64, bool)| #[trigger] final(v)@.contains(b) <==> (old(v)@.contains(b) || b == a),
        final(v)@.len() >= old(v)@.len(),
{
    let mut j: usize = v.len();
    while j > 0 && act_less(a, v[j - 1])
        invariant
            j <= v@.len(),
            v@ == old(v)@,
            forall|k: int| j <= k < v@.len() ==> act_lt(a, v@[k]),
        decreases j,
    {
        j = j - 1;
    }
    if j > 0 && v[j - 1].0 == a.0 && v[j - 1].1 == a.1 {
        proof {
            assert forall|b: (u64, bool)| #[trigger] v@.contains(b) <==> (old(v)@.contains(b) || b == a) by {
                if b == a {
                    assert(v@[j - 1] == b);
                }
            }
        }
        return;
    }
    let ghost s0 = v@;
    proof {
        assert forall|k: int| 0 <= k < j implies act_lt(s0[k], a) by {
            assert(act_lt(s0[j - 1], a));
            if k < j - 1 {
                assert(act_lt(s0[k], s0[j - 1]));
            }
        }
    }
    v.insert(j, a);
    proof {
        let s1 = v@;
        assert forall|x: int, y: int| 0 <= x < y < s1.len() implies act_lt(s1[x], s1[y]) by {
            if x < j {
                if y > j {
                    assert(s1[y] == s0[y - 1]);
                }
            } else if x == j {
                assert(s1[y] == s0[y - 1]);
            } else {
                assert(s1[x] == s0[x - 1]);
                assert(s1[y] == s0[y - 1]);
            }
        }
        assert forall|b: (u64, bool)| #[trigger] s1.contains(b) <==> (s0.contains(b) || b == a) by {
            if s1.contains(b) {
                let k = choose|k: int| 0 <= k < s1.len() && s1[k] == b;
                if k < j {
                    assert(s0[k] == b);
                } else if k > j {
                    assert(s0[k - 1] == b);
                }
            }
            if s0.contains(b) {
                let k = choose|k: int| 0 <= k < s0.len() && s0[k] == b;
                if k < j {
                    assert(s1[k] == b);
                } else {
                    assert(s1[k + 1] == b);
                }
            }
            if b == a {
                assert(s1[j as int] == b);
            }
        }
    }
}

/// Whether the action `a` comes before `b`.
pub fn act_less(a: (u64, bool), b: (u64, bool)) -> (r: bool)
    ensures
        r == act_lt(a, b),
{
    a.0 < b.0 || (a.0 == b.0 && a.1 && !b.1)
}


/// Records that the action `act` moves the nodes `nodes` in direction `dir`: the entry
/// with that key gains the action, or a new entry is placed at its rank.
pub fn add_action(groups: &mut Vec<DeformEntry>, nodes: Vec<u64>, dir: Cell, act: (u64, bool))
    requires
        entries_ok(old(groups)@),
    ensures
        entries_ok(final(groups)@),
        forall|n: Seq<u64>, d: Cell, a: (u64, bool)| #[trigger] entry_holds(final(groups)@, n, d, a) <==> (entry_holds(
            old(groups)@,
            n,
            d,
            a,
        ) || (n == nodes@ && d == dir && a == act)),
        forall|n: Seq<u64>, d: Cell| #[trigger] has_entry(final(groups)@, n, d) <==> (has_entry(old(groups)@, n, d) || (n == nodes@
            && d == dir)),
{
    let ghost g0 = groups@;
    let mut i: usize = 0;
    while i < groups.len() && key_less(&groups[i].nodes, groups[i].dir, &nodes, dir)
        invariant
            groups@ == g0,
            entries_ok(g0),
            i <= g0.len(),
            forall|k: int| 0 <= k < i ==> key_lt(#[trigger] g0[k].nodes@, g0[k].dir, nodes@, dir),
        decreases g0.len() - i,
    {
        i = i + 1;
    }
    if i < groups.len() && same_ids(&groups[i].nodes, &nodes) && groups[i].dir.x == dir.x && groups[i].dir.y == dir.y
        && groups[i].dir.z == dir.z {
        let mut e = groups.remove(i);
        let ghost a0 = e.actions@;
        insert_action(&mut e.actions, act);
        proof {
            assert(a0.len() > 0) by {
                assert(g0[i as int].actions@.len() > 0);
            }
        }
        let ghost ev = e;
        assert(acts_sorted(ev.actions@) && ev.actions@.len() > 0);
        groups.insert(i, e);
        proof {
            let g1 = groups@;
            assert(g1[i as int] == ev);
            assert(g1.len() == g0.len());
            assert forall|k: int| 0 <= k < g1.len() && k != i implies g1[k] == g0[k] by {}
            assert(g1[i as int].nodes@ == g0[i as int].nodes@);
            assert(entries_ok(g1)) by {
                assert forall|x: int, y: int| 0 <= x < y < g1.len() implies key_lt(g1[x].nodes@, g1[x].dir, g1[y].nodes@, g1[y].dir) by {
                    assert(key_lt(g0[x].nodes@, g0[x].dir, g0[y].nodes@, g0[y].dir));
                }
                assert forall|x: int| 0 <= x < g1.len() implies acts_sorted(#[trigger] g1[x].actions@) && g1[x].actions@.len() > 0 by {
                    if x != i {
                        assert(g1[x] == g0[x]);
                    }
                }
            }
            assert forall|n: Seq<u64>, d: Cell, a: (u64, bool)| #[trigger] entry_holds(g1, n, d, a) <==> (entry_holds(g0, n, d, a) || (n == nodes@
                && d == dir && a == act)) by {
                if entry_holds(g1, n, d, a) {
                    let k = choose|k: int| #![trigger g1[k]] 0 <= k < g1.len() && g1[k].nodes@ == n && g1[k].dir == d && g1[k].actions@.contains(a);
                    if k != i {
                        assert(g0[k] == g1[k]);
                    } else if a != act {
                        assert(a0.contains(a));
                        assert(g0[k].actions@.contains(a));
                    }
                }
                if entry_holds(g0, n, d, a) {
                    let k = choose|k: int| #![trigger g0[k]] 0 <= k < g0.len() && g0[k].nodes@ == n && g0[k].dir == d && g0[k].actions@.contains(a);
                    if k != i {
                        assert(g0[k] == g1[k]);
                    } else {
                        assert(g1[k].actions@.contains(a));
                    }
                }
                if n == nodes@ && d == dir && a == act {
                    assert(g1[i as int].actions@.contains(a));
                }
            }
            assert forall|n: Seq<u64>, d: Cell| #[trigger] has_entry(g1, n, d) <==> (has_entry(g0, n, d) || (n == nodes@ && d == dir)) by {
                if has_entry(g1, n, d) {
                    let k = choose|k: int| #![trigger g1[k]] 0 <= k < g1.len() && g1[k].nodes@ == n && g1[k].dir == d;
                    if k != i {
                        assert(g0[k] == g1[k]);
                    }
                }
                if has_entry(g0, n, d) {
                    let k = choose|k: int| #![trigger g0[k]] 0 <= k < g0.len() && g0[k].nodes@ == n && g0[k].dir == d;
                    if k != i {
                        assert(g0[k] == g1[k]);
                    }
                }
            }
        }
    } else {
        let mut actions: Vec<(u64, bool)> = Vec::new();
        actions.push(act);
        let e = DeformEntry { nodes, dir, actions };
        proof {
            if i < g0.len() {
                if !(g0[i as int].nodes@ == e.nodes@ && g0[i as int].dir == dir) {
                    lemma_key_lt_total(g0[i as int].nodes@, g0[i as int].dir, e.nodes@, dir);
                }
                assert(key_lt(e.nodes@, dir, g0[i as int].nodes@, g0[i as int].dir));
            }
        }
        groups.insert(i, e);
        proof {
            let g1 = groups@;
            assert(g1[i as int] == e);
            assert forall|k: int| 0 <= k < i implies #[trigger] g1[k] == g0[k] by {}
            assert forall|k: int| i < k < g1.len() implies #[trigger] g1[k] == g0[k - 1] by {}
            assert(acts_sorted(e.actions@));
            assert(entries_ok(g1)) by {
                assert forall|x: int, y: int| 0 <= x < y < g1.len() implies key_lt(g1[x].nodes@, g1[x].dir, g1[y].nodes@, g1[y].dir) by {
                    if x < i && y < i {
                        assert(key_lt(g0[x].nodes@, g0[x].dir, g0[y].nodes@, g0[y].dir));
                    } else if x < i && y == i {
                    } else if x < i {
                        assert(g1[y] == g0[y - 1]);
                        assert(key_lt(e.nodes@, dir, g0[i as int].nodes@, g0[i as int].dir));
                        if y - 1 > i {
                            assert(key_lt(g0[i as int].nodes@, g0[i as int].dir, g0[y - 1].nodes@, g0[y - 1].dir));
                            lemma_key_lt_transitive(e.nodes@, dir, g0[i as int].nodes@, g0[i as int].dir, g0[y - 1].nodes@, g0[y - 1].dir);
                        }
                        lemma_key_lt_transitive(g0[x].nodes@, g0[x].dir, e.nodes@, dir, g0[y - 1].nodes@, g0[y - 1].dir);
                    } else if x == i {
                        assert(g1[y] == g0[y - 1]);
                        if y - 1 > i {
                            assert(key_lt(g0[i as int].nodes@, g0[i as int].dir, g0[y - 1].nodes@, g0[y - 1].dir));
                            lemma_key_lt_transitive(e.nodes@, dir, g0[i as int].nodes@, g0[i as int].dir, g0[y - 1].nodes@, g0[y - 1].dir);
                        }
                    } else {
                        assert(g1[x] == g0[x - 1]);
                        assert(g1[y] == g0[y - 1]);
                        assert(key_lt(g0[x - 1].nodes@, g0[x - 1].dir, g0[y - 1].nodes@, g0[y - 1].dir));
                    }
                }
                assert forall|x: int| 0 <= x < g1.len() implies acts_sorted(#[trigger] g1[x].actions@) && g1[x].actions@.len() > 0 by {
                    if x < i {
                        assert(g1[x] == g0[x]);
                        assert(acts_sorted(g0[x].actions@) && g0[x].actions@.len() > 0);
                    } else if x > i {
                        assert(g1[x] == g0[x - 1]);
                        assert(acts_sorted(g0[x - 1].actions@) && g0[x - 1].actions@.len() > 0);
                    } else {
                        assert(g1[x] == e);
                        assert(e.actions@.len() == 1);
                    }
                }
            }
            assert forall|n: Seq<u64>, d: Cell, a: (u64, bool)| #[trigger] entry_holds(g1, n, d, a) <==> (entry_holds(g0, n, d, a) || (n == nodes@
                && d == dir && a == act)) by {
                if entry_holds(g1, n, d, a) {
                    let k = choose|k: int| #![trigger g1[k]] 0 <= k < g1.len() && g1[k].nodes@ == n && g1[k].dir == d && g1[k].actions@.contains(a);
                    if k < i {
                        assert(g0[k] == g1[k]);
                    } else if k > i {
                        assert(g0[k - 1] == g1[k]);
                    } else {
                        assert(e.actions@ == seq![act]);
                        assert(a == act);
                    }
                }
                if entry_holds(g0, n, d, a) {
                    let k = choose|k: int| #![trigger g0[k]] 0 <= k < g0.len() && g0[k].nodes@ == n && g0[k].dir == d && g0[k].actions@.contains(a);
                    if k < i {
                        assert(g0[k] == g1[k]);
                    } else {
                        assert(g0[k] == g1[k + 1]);
                    }
                }
                if n == nodes@ && d == dir && a == act {
                    assert(e.actions@[0] == act);
                    assert(g1[i as int].actions@.contains(a));
                }
            }
            assert forall|n: Seq<u64>, d: Cell| #[trigger] has_entry(g1, n, d) <==> (has_entry(g0, n, d) || (n == nodes@ && d == dir)) by {
                if has_entry(g1, n, d) {
                    let k = choose|k: int| #![trigger g1[k]] 0 <= k < g1.len() && g1[k].nodes@ == n && g1[k].dir == d;
                    if k < i {
                        assert(g0[k] == g1[k]);
                    } else if k > i {
                        assert(g0[k - 1] == g1[k]);
                    }
                }
                if has_entry(g0, n, d) {
                    let k = choose|k: int| #![trigger g0[k]] 0 <= k < g0.len() && g0[k].nodes@ == n && g0[k].dir == d;
                    if k < i {
                        assert(g0[k] == g1[k]);
                    } else {
                        assert(g0[k] == g1[k + 1]);
                    }
                }
                if n == nodes@ && d == dir {
                    assert(g1[i as int].nodes@ == n);
                }
            }
        }
    }
}


/// The axis of a direction: 0 for east-west, 1 for north-south, 2 for up-down.
pub open spec fn axis_of(d: Cell) -> int {
    if d.x != 0 {
        0
    } else if d.z != 0 {
        1
    } else {
        2
    }
}

fn axis(d: Cell) -> (r: u8)
    ensures
        r == axis_of(d),
{
    if d.x != 0 {
        0
    } else if d.z != 0 {
        1
    } else {
        2
    }
}

/// The peers of the `k`-th pusher among the first `j`: the other pushers on its axis,
/// in order, at most twelve of them.
pub open spec fn peers_upto(ps: Seq<DeformPusher>, k: int, j: int) -> Seq<u64>
    decreases j,
{
    if j <= 0 {
        Seq::empty()
    } else {
        let prev = peers_upto(ps, k, j - 1);
        let p = ps[j - 1];
        if p.body != ps[k].body && axis_of(p.dir) == axis_of(ps[k].dir) && prev.len() < 12 {
            prev.push(p.body)
        } else {
            prev
        }
    }
}

/// The peers of the `k`-th pusher: the first twelve other pushers on its axis.
pub open spec fn peers(ps: Seq<DeformPusher>, k: int) -> Seq<u64> {
    peers_upto(ps, k, ps.len() as int)
}

proof fn lemma_peers_len(ps: Seq<DeformPusher>, k: int, j: int)
    ensures
        peers_upto(ps, k, j).len() <= 12,
    decreases j,
{
    if j > 0 {
        lemma_peers_len(ps, k, j - 1);
    }
}

/// The peers of the `k`-th pusher.
pub fn peers_of(g: &DeformGraph, k: usize) -> (r: Vec<u64>)
    requires
        k < g.pushers@.len(),
    ensures
        r@ == peers(g.pushers@, k as int),
        r@.len() <= 12,
{
    let ghost ps = g.pushers@;
    let body = g.pushers[k].body;
    let ax = axis(g.pushers[k].dir);
    let mut r: Vec<u64> = Vec::new();
    let mut j: usize = 0;
    while j < g.pushers.len()
        invariant
            ps == g.pushers@,
            k < ps.len(),
            body == ps[k as int].body,
            ax == axis_of(ps[k as int].dir),
            j <= ps.len(),
            r@ == peers_upto(ps, k as int, j as int),
        decreases ps.len() - j,
    {
        let p = g.pushers[j];
        if p.body != body && axis(p.dir) == ax && r.len() < 12 {
            r.push(p.body);
        }
        j = j + 1;
    }
    proof {
        lemma_peers_len(ps, k as int, ps.len() as int);
    }
    r
}

/// Every subset of `items`, each as a list.
pub fn subsets_of(items: &Vec<u64>) -> (r: Vec<Vec<u64>>)
    ensures
        forall|i: int| 0 <= i < r@.len() ==> (#[trigger] r@[i])@.to_set().subset_of(items@.to_set()),
        forall|s: Set<u64>| #[trigger] s.subset_of(items@.to_set()) ==> exists|i: int| 0 <= i < r@.len() && (#[trigger] r@[i])@.to_set() == s,
{
    let mut r: Vec<Vec<u64>> = Vec::new();
    r.push(Vec::new());
    proof {
        assert(r@[0]@.to_set() =~= Set::<u64>::empty());
        assert(items@.take(0).to_set() =~= Set::<u64>::empty());
        assert forall|s: Set<u64>| #[trigger] s.subset_of(items@.take(0).to_set()) implies exists|i: int| 0 <= i < r@.len() && (#[trigger] r@[i])@.to_set() == s by {
            assert(s =~= Set::<u64>::empty());
            assert(r@[0]@.to_set() == s);
        }
    }
    let mut j: usize = 0;
    while j < items.len()
        invariant
            j <= items@.len(),
            forall|i: int| 0 <= i < r@.len() ==> (#[trigger] r@[i])@.to_set().subset_of(items@.take(j as int).to_set()),
            forall|s: Set<u64>| #[trigger] s.subset_of(items@.take(j as int).to_set()) ==> exists|i: int| 0 <= i < r@.len() && (#[trigger] r@[i])@.to_set() == s,
        decreases items@.len() - j,
    {
        let x = items[j];
        let ghost r0 = r@;
        let n = r.len();
        let mut i: usize = 0;
        proof {
            assert forall|y: u64| items@.take(j + 1).to_set().contains(y) <==> (items@.take(j as int).to_set().contains(y) || y == x) by {
                if items@.take(j + 1).to_set().contains(y) {
                    let u = choose|u: int| 0 <= u < j + 1 && #[trigger] items@.take(j + 1)[u] == y;
                    if u < j {
                        assert(items@.take(j as int)[u] == y);
                    }
                }
                if items@.take(j as int).to_set().contains(y) {
                    let u = choose|u: int| 0 <= u < j && #[trigger] items@.take(j as int)[u] == y;
                    assert(items@.take(j + 1)[u] == y);
                }
                if y == x {
                    assert(items@.take(j + 1)[j as int] == y);
                }
            }
        }
        while i < n
            invariant
                n == r0.len(),
                i <= n,
                r@.len() == n + i,
                forall|t: int| 0 <= t < n ==> #[trigger] r@[t] == r0[t],
                forall|t: int| 0 <= t < i ==> (#[trigger] r@[n + t])@ == r0[t]@.push(x),
            decreases n - i,
        {
            let mut w = r[i].clone();
            proof {
                assert(w@ == r0[i as int]@);
            }
            w.push(x);
            r.push(w);
            i = i + 1;
        }
        proof {
            assert forall|t: int| 0 <= t < r@.len() implies (#[trigger] r@[t])@.to_set().subset_of(items@.take(j + 1).to_set()) by {
                if t < n {
                    assert(r@[t] == r0[t]);
                    assert(r0[t]@.to_set().subset_of(items@.take(j as int).to_set()));
                } else {
                    let u = t - n;
                    assert(r@[n + u]@ == r0[u]@.push(x));
                    assert(r0[u]@.to_set().subset_of(items@.take(j as int).to_set()));
                    assert forall|y: u64| r@[t]@.to_set().contains(y) implies items@.take(j + 1).to_set().contains(y) by {
                        let v = choose|v: int| 0 <= v < r@[t]@.len() && #[trigger] r@[t]@[v] == y;
                        if v < r0[u]@.len() {
                            assert(r0[u]@[v] == y);
                            assert(r0[u]@.to_set().contains(y));
                        }
                    }
                }
            }
            assert forall|s: Set<u64>| #[trigger] s.subset_of(items@.take(j + 1).to_set()) implies exists|i2: int| 0 <= i2 < r@.len() && (#[trigger] r@[i2])@.to_set() == s by {
                let rest = s.remove(x);
                assert(rest.subset_of(items@.take(j as int).to_set()));
                let u = choose|u: int| 0 <= u < r0.len() && (#[trigger] r0[u])@.to_set() == rest;
                if s.contains(x) {
                    assert(r@[n + u]@ == r0[u]@.push(x));
                    assert(r@[n + u]@.to_set() =~= s) by {
                        assert forall|y: u64| r@[n + u]@.to_set().contains(y) <==> s.contains(y) by {
                            if r@[n + u]@.to_set().contains(y) {
                                let v = choose|v: int| 0 <= v < r@[n + u]@.len() && #[trigger] r@[n + u]@[v] == y;
                                if v < r0[u]@.len() {
                                    assert(r0[u]@[v] == y);
                                    assert(r0[u]@.to_set().contains(y));
                                }
                            }
                            if s.contains(y) && y != x {
                                assert(r0[u]@.to_set().contains(y));
                                let v = choose|v: int| 0 <= v < r0[u]@.len() && #[trigger] r0[u]@[v] == y;
                                assert(r@[n + u]@[v] == y);
                            }
                            if y == x {
                                assert(r@[n + u]@[r0[u]@.len() as int] == y);
                            }
                        }
                    }
                } else {
                    assert(rest =~= s);
                    assert(r@[u] == r0[u]);
                }
            }
        }
        j = j + 1;
    }
    proof {
        assert(items@.take(j as int) =~= items@);
    }
    r
}


/// The pushers are listed by increasing body, each pushes along a unit axis, and no
/// pusher's head is its own body.
pub open spec fn graph_ok(g: &DeformGraph) -> bool {
    &&& forall|a: int, b: int| 0 <= a < b < g.pushers@.len() ==> g.pushers@[a].body < g.pushers@[b].body
    &&& forall|k: int| 0 <= k < g.pushers@.len() ==> (#[trigger] g.pushers@[k]).head != g.pushers@[k].body
        && g.pushers@[k].dir.is_unit_axis()
}

/// A walk from `start` that meets no `forbidden` node reaches exactly `nodes`, listed
/// in increasing order.
pub open spec fn walk_gives(g: &DeformGraph, cuts: Set<u64>, uo: bool, start: u64, forbidden: u64, nodes: Seq<u64>) -> bool {
    &&& !g.reach(cuts, uo, start).contains(forbidden)
    &&& ids_sorted(nodes)
    &&& nodes.to_set() == g.reach(cuts, uo, start)
}

/// Where an action's walk starts and what it must not meet: extending walks from the
/// head away from the body, retracting from the body away from the head.
pub open spec fn action_ends(p: DeformPusher, fwd: bool) -> (u64, u64) {
    if fwd {
        (p.head, p.body)
    } else {
        (p.body, p.head)
    }
}

/// With the pusher cut, together with some of its peers, the action moves `nodes`.
pub open spec fn cut_cand(g: &DeformGraph, k: int, fwd: bool, nodes: Seq<u64>) -> bool {
    let p = g.pushers@[k];
    exists|s: Set<u64>| #[trigger] s.subset_of(peers(g.pushers@, k).to_set()) && walk_gives(
        g,
        s.insert(p.body),
        false,
        action_ends(p, fwd).0,
        action_ends(p, fwd).1,
        nodes,
    )
}

/// The bodies of all pushers.
pub open spec fn all_bodies(g: &DeformGraph) -> Set<u64> {
    g.pushers@.map_values(|p: DeformPusher| p.body).to_set()
}

/// `nodes` is a candidate of the action (`fwd`: extending) of the `k`-th pusher: what a
/// cut of it and some peers moves, or, when no such cut works, what moves along the
/// block links alone.
pub open spec fn cand(g: &DeformGraph, k: int, fwd: bool, nodes: Seq<u64>) -> bool {
    let p = g.pushers@[k];
    ||| cut_cand(g, k, fwd, nodes)
    ||| (!(exists|n: Seq<u64>| #[trigger] cut_cand(g, k, fwd, n)) && walk_gives(
        g,
        all_bodies(g),
        true,
        action_ends(p, fwd).0,
        action_ends(p, fwd).1,
        nodes,
    ))
}

/// The `k`-th pusher can both extend and retract.
pub open spec fn pusher_ok(g: &DeformGraph, k: int) -> bool {
    &&& exists|n: Seq<u64>| #[trigger] cand(g, k, true, n)
    &&& exists|n: Seq<u64>| #[trigger] cand(g, k, false, n)
}

/// The candidates of the `k`-th pusher as found: each a candidate, every candidate found.
pub open spec fn cands_listed(g: &DeformGraph, k: int, c: Seq<(bool, Vec<u64>)>) -> bool {
    &&& forall|i: int| 0 <= i < c.len() ==> cand(g, k, (#[trigger] c[i]).0, c[i].1@)
    &&& forall|fwd: bool, n: Seq<u64>| #[trigger] cand(g, k, fwd, n) ==> exists|i: int| 0 <= i < c.len() && (#[trigger] c[i]).0 == fwd
        && c[i].1@ == n
}

fn set_of(v: &Vec<u64>, extra: u64) -> (r: HashSet<u64>)
    ensures
        r@ == v@.to_set().insert(extra),
{
    let mut r: HashSet<u64> = HashSet::new();
    r.insert(extra);
    let mut i: usize = 0;
    while i < v.len()
        invariant
            i <= v@.len(),
            r@ == v@.take(i as int).to_set().insert(extra),
        decreases v@.len() - i,
    {
        r.insert(v[i]);
        proof {
            assert(v@.take(i + 1) =~= v@.take(i as int).push(v@[i as int]));
            v@.take(i as int).lemma_push_to_set_commute(v@[i as int]);
        }
        i = i + 1;
        assert(r@ =~= v@.take(i as int).to_set().insert(extra));
    }
    assert(v@.take(i as int) =~= v@);
    r
}

fn bodies_of(g: &DeformGraph) -> (r: HashSet<u64>)
    ensures
        r@ == all_bodies(g),
{
    let ghost bs = g.pushers@.map_values(|p: DeformPusher| p.body);
    let mut r: HashSet<u64> = HashSet::new();
    let mut i: usize = 0;
    while i < g.pushers.len()
        invariant
            i <= g.pushers@.len(),
            bs == g.pushers@.map_values(|p: DeformPusher| p.body),
            r@ == bs.take(i as int).to_set(),
        decreases g.pushers@.len() - i,
    {
        r.insert(g.pushers[i].body);
        proof {
            assert(bs.take(i + 1) =~= bs.take(i as int).push(bs[i as int]));
            bs.take(i as int).lemma_push_to_set_commute(bs[i as int]);
        }
        i = i + 1;
    }
    assert(bs.take(i as int) =~= bs);
    r
}


/// Two sorted lists of the same set are equal.
proof fn lemma_same_sorted(a: Seq<u64>, b: Seq<u64>)
    requires
        ids_sorted(a),
        ids_sorted(b),
        a.to_set() == b.to_set(),
    ensures
        a == b,
{
    assert forall|x: u64| a.contains(x) <==> b.contains(x) by {
        assert(a.to_set().contains(x) == a.contains(x));
        assert(b.to_set().contains(x) == b.contains(x));
    }
    lemma_sorted_unique(a, b);
}

/// The candidates of both actions of the `k`-th pusher.
pub fn pusher_candidates(g: &DeformGraph, k: usize) -> (r: Vec<(bool, Vec<u64>)>)
    requires
        graph_ok(g),
        k < g.pushers@.len(),
    ensures
        cands_listed(g, k as int, r@),
{
    let p = g.pushers[k];
    proof {
        assert(p.head != p.body);
    }
    let peer_list = peers_of(g, k);
    let subsets = subsets_of(&peer_list);
    let mut c: Vec<(bool, Vec<u64>)> = Vec::new();
    let mut any_fwd = false;
    let mut any_rev = false;
    let mut t: usize = 0;
    while t < subsets.len()
        invariant
            p == g.pushers@[k as int],
            p.head != p.body,
            k < g.pushers@.len(),
            peer_list@ == peers(g.pushers@, k as int),
            forall|i: int| 0 <= i < subsets@.len() ==> (#[trigger] subsets@[i])@.to_set().subset_of(peer_list@.to_set()),
            forall|s: Set<u64>| #[trigger] s.subset_of(peer_list@.to_set()) ==> exists|i: int| 0 <= i < subsets@.len() && (#[trigger] subsets@[i])@.to_set() == s,
            t <= subsets@.len(),
            forall|i: int| 0 <= i < c@.len() ==> cut_cand(g, k as int, (#[trigger] c@[i]).0, c@[i].1@),
            forall|t2: int, fwd: bool, n: Seq<u64>| 0 <= t2 < t && #[trigger] walk_gives(
                g,
                subsets@[t2]@.to_set().insert(p.body),
                false,
                action_ends(p, fwd).0,
                action_ends(p, fwd).1,
                n,
            ) ==> exists|i: int| 0 <= i < c@.len() && (#[trigger] c@[i]).0 == fwd && c@[i].1@ == n,
            any_fwd <==> exists|i: int| 0 <= i < c@.len() && (#[trigger] c@[i]).0,
            any_rev <==> exists|i: int| 0 <= i < c@.len() && !(#[trigger] c@[i]).0,
        decreases subsets@.len() - t,
    {
        let cuts = set_of(&subsets[t], p.body);
        let ghost s_t = subsets@[t as int]@.to_set();
        proof {
            assert(s_t.subset_of(peer_list@.to_set()));
        }
        let ghost c0 = c@;
        let fwd_walk = g.propagate_with_cuts(p.head, p.body, &cuts, false);
        match fwd_walk {
            Some(nodes) => {
                proof {
                    assert(walk_gives(g, s_t.insert(p.body), false, action_ends(p, true).0, action_ends(p, true).1, nodes@));
                    assert(cut_cand(g, k as int, true, nodes@));
                }
                c.push((true, nodes));
                any_fwd = true;
            },
            None => {},
        }
        let ghost c1 = c@;
        let rev_walk = g.propagate_with_cuts(p.body, p.head, &cuts, false);
        match rev_walk {
            Some(nodes) => {
                proof {
                    assert(walk_gives(g, s_t.insert(p.body), false, action_ends(p, false).0, action_ends(p, false).1, nodes@));
                    assert(cut_cand(g, k as int, false, nodes@));
                }
                c.push((false, nodes));
                any_rev = true;
            },
            None => {},
        }
        proof {
            assert forall|i: int| 0 <= i < c0.len() implies #[trigger] c@[i] == c0[i] by {
                assert(c1[i] == c0[i]);
            }
            assert forall|i: int| 0 <= i < c@.len() implies cut_cand(g, k as int, (#[trigger] c@[i]).0, c@[i].1@) by {
                if i < c0.len() {
                    assert(c@[i] == c0[i]);
                } else if i < c1.len() {
                    assert(c@[i] == c1[i]);
                }
            }
            assert forall|t2: int, fwd: bool, n: Seq<u64>| 0 <= t2 < t + 1 && #[trigger] walk_gives(
                g,
                subsets@[t2]@.to_set().insert(p.body),
                false,
                action_ends(p, fwd).0,
                action_ends(p, fwd).1,
                n,
            ) implies exists|i: int| 0 <= i < c@.len() && (#[trigger] c@[i]).0 == fwd && c@[i].1@ == n by {
                if t2 < t {
                    let i = choose|i: int| 0 <= i < c0.len() && (#[trigger] c0[i]).0 == fwd && c0[i].1@ == n;
                    assert(c@[i] == c0[i]);
                } else if fwd {
                    assert(cuts@ == s_t.insert(p.body));
                    match fwd_walk {
                        Some(nodes) => {
                            lemma_same_sorted(nodes@, n);
                            assert(c1[c0.len() as int].1@ == n);
                            assert(c@[c0.len() as int] == c1[c0.len() as int]);
                        },
                        None => {},
                    }
                } else {
                    match rev_walk {
                        Some(nodes) => {
                            lemma_same_sorted(nodes@, n);
                            assert(c@[c1.len() as int].1@ == n);
                        },
                        None => {},
                    }
                }
            }
            assert(any_fwd <==> exists|i: int| 0 <= i < c@.len() && (#[trigger] c@[i]).0) by {
                if exists|i: int| 0 <= i < c@.len() && (#[trigger] c@[i]).0 {
                    let i = choose|i: int| 0 <= i < c@.len() && (#[trigger] c@[i]).0;
                    if i < c0.len() {
                        assert(c0[i] == c@[i]);
                    } else if i < c1.len() {
                        assert(c1[i] == c@[i]);
                    }
                }
                if any_fwd && !(exists|i: int| 0 <= i < c0.len() && (#[trigger] c0[i]).0) {
                    assert(c@[c0.len() as int] == c1[c0.len() as int]);
                }
                if exists|i: int| 0 <= i < c0.len() && (#[trigger] c0[i]).0 {
                    let i = choose|i: int| 0 <= i < c0.len() && (#[trigger] c0[i]).0;
                    assert(c@[i] == c0[i]);
                }
            }
            assert(any_rev <==> exists|i: int| 0 <= i < c@.len() && !(#[trigger] c@[i]).0) by {
                if exists|i: int| 0 <= i < c@.len() && !(#[trigger] c@[i]).0 {
                    let i = choose|i: int| 0 <= i < c@.len() && !(#[trigger] c@[i]).0;
                    if i < c0.len() {
                        assert(c0[i] == c@[i]);
                    } else if i < c1.len() {
                        assert(c1[i] == c@[i]);
                    }
                }
                if exists|i: int| 0 <= i < c0.len() && !(#[trigger] c0[i]).0 {
                    let i = choose|i: int| 0 <= i < c0.len() && !(#[trigger] c0[i]).0;
                    assert(c@[i] == c0[i]);
                }
            }
        }
        t = t + 1;
    }
    let ghost cl = c@;
    proof {
        assert forall|fwd: bool, n: Seq<u64>| #[trigger] cut_cand(g, k as int, fwd, n) implies exists|i: int| 0 <= i < cl.len()
            && (#[trigger] cl[i]).0 == fwd && cl[i].1@ == n by {
            let s = choose|s: Set<u64>| #[trigger] s.subset_of(peers(g.pushers@, k as int).to_set()) && walk_gives(
                g,
                s.insert(p.body),
                false,
                action_ends(p, fwd).0,
                action_ends(p, fwd).1,
                n,
            );
            let t2 = choose|t2: int| 0 <= t2 < subsets@.len() && (#[trigger] subsets@[t2])@.to_set() == s;
            assert(walk_gives(g, subsets@[t2]@.to_set().insert(p.body), false, action_ends(p, fwd).0, action_ends(p, fwd).1, n));
        }
        assert(!any_fwd ==> !(exists|n: Seq<u64>| #[trigger] cut_cand(g, k as int, true, n))) by {
            if exists|n: Seq<u64>| #[trigger] cut_cand(g, k as int, true, n) {
                let n = choose|n: Seq<u64>| #[trigger] cut_cand(g, k as int, true, n);
                let i = choose|i: int| 0 <= i < cl.len() && (#[trigger] cl[i]).0 == true && cl[i].1@ == n;
            }
        }
        assert(!any_rev ==> !(exists|n: Seq<u64>| #[trigger] cut_cand(g, k as int, false, n))) by {
            if exists|n: Seq<u64>| #[trigger] cut_cand(g, k as int, false, n) {
                let n = choose|n: Seq<u64>| #[trigger] cut_cand(g, k as int, false, n);
                let i = choose|i: int| 0 <= i < cl.len() && (#[trigger] cl[i]).0 == false && cl[i].1@ == n;
            }
        }
    }
    let ghost fw: Option<Seq<u64>> = None;
    let ghost rv: Option<Seq<u64>> = None;
    if !any_fwd || !any_rev {
        let all = bodies_of(g);
        if !any_fwd {
            match g.propagate_with_cuts(p.head, p.body, &all, true) {
                Some(nodes) => {
                    proof {
                        fw = Some(nodes@);
                    }
                    c.push((true, nodes));
                },
                None => {},
            }
        }
        if !any_rev {
            match g.propagate_with_cuts(p.body, p.head, &all, true) {
                Some(nodes) => {
                    proof {
                        rv = Some(nodes@);
                    }
                    c.push((false, nodes));
                },
                None => {},
            }
        }
    }
    proof {
        assert forall|i: int| 0 <= i < cl.len() implies #[trigger] c@[i] == cl[i] by {}
        assert forall|i: int| 0 <= i < c@.len() implies cand(g, k as int, (#[trigger] c@[i]).0, c@[i].1@) by {
            if i < cl.len() {
                assert(c@[i] == cl[i]);
            }
        }
        assert forall|fwd: bool, n: Seq<u64>| #[trigger] cand(g, k as int, fwd, n) implies exists|i: int| 0 <= i < c@.len()
            && (#[trigger] c@[i]).0 == fwd && c@[i].1@ == n by {
            if cut_cand(g, k as int, fwd, n) {
                let i = choose|i: int| 0 <= i < cl.len() && (#[trigger] cl[i]).0 == fwd && cl[i].1@ == n;
                assert(c@[i] == cl[i]);
            } else {
                let ends = action_ends(p, fwd);
                assert(walk_gives(g, all_bodies(g), true, ends.0, ends.1, n));
                if fwd {
                    assert(!any_fwd) by {
                        if any_fwd {
                            let i = choose|i: int| 0 <= i < cl.len() && (#[trigger] cl[i]).0;
                            assert(cut_cand(g, k as int, true, cl[i].1@));
                        }
                    }
                    assert(fw is Some);
                    lemma_same_sorted(fw.unwrap(), n);
                    assert(c@[cl.len() as int].1@ == n);
                } else {
                    assert(!any_rev) by {
                        if any_rev {
                            let i = choose|i: int| 0 <= i < cl.len() && !(#[trigger] cl[i]).0;
                            assert(cut_cand(g, k as int, false, cl[i].1@));
                        }
                    }
                    assert(rv is Some);
                    lemma_same_sorted(rv.unwrap(), n);
                    assert(c@[c@.len() - 1].1@ == n);
                }
            }
        }
    }
    c
}


/// The direction in which an action moves its nodes.
pub open spec fn move_dir(p: DeformPusher, fwd: bool) -> Cell {
    if fwd {
        p.dir
    } else {
        p.dir.negated()
    }
}

/// Among the first `j` pushers, the action `a` of one that can both extend and
/// retract moves the nodes `n` in direction `d`.
pub open spec fn group_action_upto(g: &DeformGraph, j: int, n: Seq<u64>, d: Cell, a: (u64, bool)) -> bool {
    exists|k: int| #![trigger g.pushers@[k]] 0 <= k < j && g.pushers@[k].body == a.0 && pusher_ok(g, k) && cand(g, k, a.1, n)
        && d == move_dir(g.pushers@[k], a.1)
}

/// The action `a` of a pusher that can both extend and retract moves the nodes `n` in
/// direction `d`: `a` belongs to the group keyed (n, d).
pub open spec fn group_action(g: &DeformGraph, n: Seq<u64>, d: Cell, a: (u64, bool)) -> bool {
    group_action_upto(g, g.pushers@.len() as int, n, d, a)
}

/// The deformation groups of the graph, keyed by (nodes, direction) in increasing
/// order, each listing its actions in order of body, extending first.
pub fn build_deform_entries(g: &DeformGraph) -> (r: Vec<DeformEntry>)
    requires
        graph_ok(g),
    ensures
        entries_ok(r@),
        forall|n: Seq<u64>, d: Cell, a: (u64, bool)| #[trigger] entry_holds(r@, n, d, a) <==> group_action(g, n, d, a),
        forall|n: Seq<u64>, d: Cell| #[trigger] has_entry(r@, n, d) <==> exists|a: (u64, bool)| #[trigger] group_action(g, n, d, a),
{
    let mut groups: Vec<DeformEntry> = Vec::new();
    let mut k: usize = 0;
    while k < g.pushers.len()
        invariant
            graph_ok(g),
            k <= g.pushers@.len(),
            entries_ok(groups@),
            forall|n: Seq<u64>, d: Cell, a: (u64, bool)| #[trigger] entry_holds(groups@, n, d, a) <==> group_action_upto(g, k as int, n, d, a),
            forall|n: Seq<u64>, d: Cell| #[trigger] has_entry(groups@, n, d) <==> exists|a: (u64, bool)| #[trigger] group_action_upto(g, k as int, n, d, a),
        decreases g.pushers@.len() - k,
    {
        let p = g.pushers[k];
        let c = pusher_candidates(g, k);
        let mut has_f = false;
        let mut has_r = false;
        let mut i: usize = 0;
        while i < c.len()
            invariant
                i <= c@.len(),
                has_f <==> exists|i2: int| 0 <= i2 < i && (#[trigger] c@[i2]).0,
                has_r <==> exists|i2: int| 0 <= i2 < i && !(#[trigger] c@[i2]).0,
            decreases c@.len() - i,
        {
            if c[i].0 {
                has_f = true;
            } else {
                has_r = true;
            }
            i = i + 1;
        }
        proof {
            assert(has_f <==> exists|n: Seq<u64>| #[trigger] cand(g, k as int, true, n)) by {
                if has_f {
                    let i2 = choose|i2: int| 0 <= i2 < c@.len() && (#[trigger] c@[i2]).0;
                    assert(cand(g, k as int, true, c@[i2].1@));
                }
                if exists|n: Seq<u64>| #[trigger] cand(g, k as int, true, n) {
                    let n = choose|n: Seq<u64>| #[trigger] cand(g, k as int, true, n);
                    let i2 = choose|i2: int| 0 <= i2 < c@.len() && (#[trigger] c@[i2]).0 == true && c@[i2].1@ == n;
                }
            }
            assert(has_r <==> exists|n: Seq<u64>| #[trigger] cand(g, k as int, false, n)) by {
                if has_r {
                    let i2 = choose|i2: int| 0 <= i2 < c@.len() && !(#[trigger] c@[i2]).0;
                    assert(cand(g, k as int, false, c@[i2].1@));
                }
                if exists|n: Seq<u64>| #[trigger] cand(g, k as int, false, n) {
                    let n = choose|n: Seq<u64>| #[trigger] cand(g, k as int, false, n);
                    let i2 = choose|i2: int| 0 <= i2 < c@.len() && (#[trigger] c@[i2]).0 == false && c@[i2].1@ == n;
                }
            }
            assert((has_f && has_r) == pusher_ok(g, k as int));
            assert(g.pushers@[k as int] == p);
            assert(p.dir.is_unit_axis());
        }
        let ok = has_f && has_r;
        let ghost g_k = groups@;
        if ok {
            let mut i: usize = 0;
            while i < c.len()
                invariant
                    graph_ok(g),
                    k < g.pushers@.len(),
                    p == g.pushers@[k as int],
                    p.dir.is_unit_axis(),
                    pusher_ok(g, k as int),
                    cands_listed(g, k as int, c@),
                    i <= c@.len(),
                    entries_ok(groups@),
                    forall|n: Seq<u64>, d: Cell, a: (u64, bool)| #[trigger] entry_holds(groups@, n, d, a) <==> (group_action_upto(g, k as int, n, d, a)
                        || exists|i2: int| 0 <= i2 < i && (#[trigger] c@[i2]).1@ == n && a == (p.body, c@[i2].0) && d == move_dir(p, c@[i2].0)),
                    forall|n: Seq<u64>, d: Cell| #[trigger] has_entry(groups@, n, d) <==> ((exists|a: (u64, bool)| #[trigger] group_action_upto(g, k as int, n, d, a))
                        || exists|i2: int| 0 <= i2 < i && (#[trigger] c@[i2]).1@ == n && d == move_dir(p, c@[i2].0)),
                decreases c@.len() - i,
            {
                let fwd = c[i].0;
                let dir = if fwd {
                    p.dir
                } else {
                    p.dir.neg()
                };
                let nodes = c[i].1.clone();
                proof {
                    assert(nodes@ =~= c@[i as int].1@);
                }
                let ghost gb = groups@;
                add_action(&mut groups, nodes, dir, (p.body, fwd));
                proof {
                    assert forall|n: Seq<u64>, d: Cell, a: (u64, bool)| #[trigger] entry_holds(groups@, n, d, a) <==> (group_action_upto(g, k as int, n, d, a)
                        || exists|i2: int| 0 <= i2 < i + 1 && (#[trigger] c@[i2]).1@ == n && a == (p.body, c@[i2].0) && d == move_dir(p, c@[i2].0)) by {
                        if exists|i2: int| 0 <= i2 < i + 1 && (#[trigger] c@[i2]).1@ == n && a == (p.body, c@[i2].0) && d == move_dir(p, c@[i2].0) {
                            let i2 = choose|i2: int| 0 <= i2 < i + 1 && (#[trigger] c@[i2]).1@ == n && a == (p.body, c@[i2].0) && d == move_dir(p, c@[i2].0);
                            if i2 < i {
                                assert(entry_holds(gb, n, d, a));
                            }
                        }
                        if entry_holds(gb, n, d, a) && !group_action_upto(g, k as int, n, d, a) {
                            let i2 = choose|i2: int| 0 <= i2 < i && (#[trigger] c@[i2]).1@ == n && a == (p.body, c@[i2].0) && d == move_dir(p, c@[i2].0);
                            assert(0 <= i2 < i + 1);
                        }
                        if n == c@[i as int].1@ && d == dir && a == (p.body, fwd) {
                            assert(c@[i as int].1@ == n && a == (p.body, c@[i as int].0) && d == move_dir(p, c@[i as int].0));
                        }
                    }
                    assert forall|n: Seq<u64>, d: Cell| #[trigger] has_entry(groups@, n, d) <==> ((exists|a: (u64, bool)| #[trigger] group_action_upto(g, k as int, n, d, a))
                        || exists|i2: int| 0 <= i2 < i + 1 && (#[trigger] c@[i2]).1@ == n && d == move_dir(p, c@[i2].0)) by {
                        if exists|i2: int| 0 <= i2 < i + 1 && (#[trigger] c@[i2]).1@ == n && d == move_dir(p, c@[i2].0) {
                            let i2 = choose|i2: int| 0 <= i2 < i + 1 && (#[trigger] c@[i2]).1@ == n && d == move_dir(p, c@[i2].0);
                            if i2 < i {
                                assert(has_entry(gb, n, d));
                            }
                        }
                        if has_entry(gb, n, d) && !(exists|a: (u64, bool)| #[trigger] group_action_upto(g, k as int, n, d, a)) {
                            let i2 = choose|i2: int| 0 <= i2 < i && (#[trigger] c@[i2]).1@ == n && d == move_dir(p, c@[i2].0);
                            assert(0 <= i2 < i + 1);
                        }
                        if n == c@[i as int].1@ && d == dir {
                            assert(c@[i as int].1@ == n && d == move_dir(p, c@[i as int].0));
                        }
                    }
                }
                i = i + 1;
            }
        }
        proof {
            assert forall|n: Seq<u64>, d: Cell, a: (u64, bool)| #[trigger] entry_holds(groups@, n, d, a) <==> group_action_upto(g, k + 1, n, d, a) by {
                if group_action_upto(g, k + 1, n, d, a) && !group_action_upto(g, k as int, n, d, a) {
                    let k2 = choose|k2: int| #![trigger g.pushers@[k2]] 0 <= k2 < k + 1 && g.pushers@[k2].body == a.0 && pusher_ok(g, k2) && cand(g, k2, a.1, n)
                        && d == move_dir(g.pushers@[k2], a.1);
                    if k2 < k {
                        assert(group_action_upto(g, k as int, n, d, a));
                    } else {
                        assert(ok);
                        let i2 = choose|i2: int| 0 <= i2 < c@.len() && (#[trigger] c@[i2]).0 == a.1 && c@[i2].1@ == n;
                        assert(a == (p.body, c@[i2].0));
                    }
                }
                if group_action_upto(g, k as int, n, d, a) {
                    let k2 = choose|k2: int| #![trigger g.pushers@[k2]] 0 <= k2 < k && g.pushers@[k2].body == a.0 && pusher_ok(g, k2) && cand(g, k2, a.1, n)
                        && d == move_dir(g.pushers@[k2], a.1);
                    assert(0 <= k2 < k + 1);
                }
                if ok && exists|i2: int| 0 <= i2 < c@.len() && (#[trigger] c@[i2]).1@ == n && a == (p.body, c@[i2].0) && d == move_dir(p, c@[i2].0) {
                    let i2 = choose|i2: int| 0 <= i2 < c@.len() && (#[trigger] c@[i2]).1@ == n && a == (p.body, c@[i2].0) && d == move_dir(p, c@[i2].0);
                    assert(cand(g, k as int, c@[i2].0, c@[i2].1@));
                    assert(g.pushers@[k as int].body == a.0);
                }
            }
            assert forall|n: Seq<u64>, d: Cell| #[trigger] has_entry(groups@, n, d) <==> exists|a: (u64, bool)| #[trigger] group_action_upto(g, k + 1, n, d, a) by {
                if exists|a: (u64, bool)| #[trigger] group_action_upto(g, k + 1, n, d, a) {
                    let a = choose|a: (u64, bool)| #[trigger] group_action_upto(g, k + 1, n, d, a);
                    if group_action_upto(g, k as int, n, d, a) {
                    } else {
                        let k2 = choose|k2: int| #![trigger g.pushers@[k2]] 0 <= k2 < k + 1 && g.pushers@[k2].body == a.0 && pusher_ok(g, k2) && cand(g, k2, a.1, n)
                            && d == move_dir(g.pushers@[k2], a.1);
                        if k2 < k {
                            assert(group_action_upto(g, k as int, n, d, a));
                        } else {
                            let i2 = choose|i2: int| 0 <= i2 < c@.len() && (#[trigger] c@[i2]).0 == a.1 && c@[i2].1@ == n;
                            assert(d == move_dir(p, c@[i2].0));
                        }
                    }
                }
                if exists|a: (u64, bool)| #[trigger] group_action_upto(g, k as int, n, d, a) {
                    let a = choose|a: (u64, bool)| #[trigger] group_action_upto(g, k as int, n, d, a);
                    let k2 = choose|k2: int| #![trigger g.pushers@[k2]] 0 <= k2 < k && g.pushers@[k2].body == a.0 && pusher_ok(g, k2) && cand(g, k2, a.1, n)
                        && d == move_dir(g.pushers@[k2], a.1);
                    assert(group_action_upto(g, k + 1, n, d, a));
                }
                if ok && exists|i2: int| 0 <= i2 < c@.len() && (#[trigger] c@[i2]).1@ == n && d == move_dir(p, c@[i2].0) {
                    let i2 = choose|i2: int| 0 <= i2 < c@.len() && (#[trigger] c@[i2]).1@ == n && d == move_dir(p, c@[i2].0);
                    let a = (p.body, c@[i2].0);
                    assert(cand(g, k as int, c@[i2].0, c@[i2].1@));
                    assert(group_action_upto(g, k + 1, n, d, a));
                }
            }
        }
        k = k + 1;
    }
    proof {
        assert forall|n: Seq<u64>, d: Cell| #[trigger] has_entry(groups@, n, d) <==> exists|a: (u64, bool)| #[trigger] group_action(g, n, d, a) by {
            if exists|a: (u64, bool)| #[trigger] group_action(g, n, d, a) {
                let a = choose|a: (u64, bool)| #[trigger] group_action(g, n, d, a);
                assert(group_action_upto(g, k as int, n, d, a));
            }
            if has_entry(groups@, n, d) {
                let a = choose|a: (u64, bool)| #[trigger] group_action_upto(g, k as int, n, d, a);
                assert(group_action(g, n, d, a));
            }
        }
    }
    groups
}


/// The entries hold exactly the deformation groups of `g`, in key order.
pub open spec fn entries_describe(es: Seq<DeformEntry>, g: &DeformGraph) -> bool {
    &&& entries_ok(es)
    &&& forall|n: Seq<u64>, d: Cell, a: (u64, bool)| #[trigger] entry_holds(es, n, d, a) <==> group_action(g, n, d, a)
    &&& forall|n: Seq<u64>, d: Cell| #[trigger] has_entry(es, n, d) <==> exists|a: (u64, bool)| #[trigger] group_action(g, n, d, a)
}

/// The group `gr` is the entry `e`, its identities as block identities.
pub open spec fn group_is(gr: DeformGroup, e: DeformEntry) -> bool {
    &&& gr.nodes@ == e.nodes@.map_values(|x: u64| BlockId(x))
    &&& gr.actions@ == e.actions@.map_values(|a: (u64, bool)| (BlockId(a.0), a.1))
}

/// `groups` are the deformation groups of the graph `g`, in key order (the direction
/// of each, part of its key, is not kept).
pub open spec fn groups_of(groups: Seq<DeformGroup>, g: &DeformGraph) -> bool {
    exists|es: Seq<DeformEntry>| #[trigger] entries_describe(es, g) && es.len() == groups.len() && forall|i: int|
        0 <= i < groups.len() ==> group_is(#[trigger] groups[i], es[i])
}

/// The deformation groups of the graph, as stored on a structure.
pub fn deform_groups_of(g: &DeformGraph) -> (r: Vec<DeformGroup>)
    requires
        graph_ok(g),
    ensures
        groups_of(r@, g),
{
    let es = build_deform_entries(g);
    let mut r: Vec<DeformGroup> = Vec::new();
    let mut i: usize = 0;
    while i < es.len()
        invariant
            i <= es@.len(),
            r@.len() == i,
            forall|j: int| 0 <= j < i ==> group_is(#[trigger] r@[j], es@[j]),
        decreases es@.len() - i,
    {
        let e = &es[i];
        let mut nodes: Vec<BlockId> = Vec::new();
        let mut t: usize = 0;
        while t < e.nodes.len()
            invariant
                t <= e.nodes@.len(),
                nodes@ == e.nodes@.take(t as int).map_values(|x: u64| BlockId(x)),
            decreases e.nodes@.len() - t,
        {
            nodes.push(BlockId(e.nodes[t]));
            t = t + 1;
            assert(nodes@ =~= e.nodes@.take(t as int).map_values(|x: u64| BlockId(x)));
        }
        assert(e.nodes@.take(t as int) =~= e.nodes@);
        let mut actions: Vec<(BlockId, bool)> = Vec::new();
        let mut t: usize = 0;
        while t < e.actions.len()
            invariant
                t <= e.actions@.len(),
                actions@ == e.actions@.take(t as int).map_values(|a: (u64, bool)| (BlockId(a.0), a.1)),
            decreases e.actions@.len() - t,
        {
            let a = e.actions[t];
            actions.push((BlockId(a.0), a.1));
            t = t + 1;
            assert(actions@ =~= e.actions@.take(t as int).map_values(|a: (u64, bool)| (BlockId(a.0), a.1)));
        }
        assert(e.actions@.take(t as int) =~= e.actions@);
        let ghost r0 = r@;
        r.push(DeformGroup { actions, nodes });
        proof {
            assert forall|j: int| 0 <= j < i + 1 implies group_is(#[trigger] r@[j], es@[j]) by {
                if j < i {
                    assert(r@[j] == r0[j]);
                }
            }
        }
        i = i + 1;
    }
    proof {
        assert(entries_describe(es@, g));
    }
    r
}

} // verus!

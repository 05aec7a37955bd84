//! Deformation of a factory structure by its pushers.  The blocks of the structure
//! and the logical heads of its pushers form a graph: face links between blocks, and
//! each pusher joining its body to its head.  When a pusher extends or retracts,
//! what moves with the head (or with the body) is what stays connected to it once
//! the pusher itself, and possibly pushers on the same axis, are cut; a walk that
//! comes back around to the other end is a ring, and that cut fails.
use vstd::prelude::*;

use std::collections::HashSet;

use crate::cell::Cell;
use crate::materials::{ids_sorted, insert_sorted_id};

verus! {

/// A pusher of the structure: its body block, its logical head, the direction in
/// which it pushes, and the cell of its body.
#[derive(Clone, Copy, Debug, PartialEq, Eq, Structural)]
pub struct DeformPusher {
    pub body: u64,
    pub head: u64,
    pub dir: Cell,
    pub at: Cell,
}

/// The graph that deformation walks.
pub struct DeformGraph {
    /// Undirected links between nodes (blocks and logical heads).
    pub links: Vec<(u64, u64)>,
    /// The pushers, in increasing order of body.
    pub pushers: Vec<DeformPusher>,
}

impl DeformGraph {
    /// `a` and `b` are linked.
    pub open spec fn linked(&self, a: u64, b: u64) -> bool {
        exists|i: int| #![trigger self.links@[i]] 0 <= i < self.links@.len() && (self.links@[i] == (a, b) || self.links@[i] == (b, a))
    }

    /// `a` and `b` are the body and head (in either order) of a pusher that is not cut.
    pub open spec fn paired(&self, cuts: Set<u64>, a: u64, b: u64) -> bool {
        exists|i: int| #![trigger self.pushers@[i]] 0 <= i < self.pushers@.len() && !cuts.contains(self.pushers@[i].body) && (
            (self.pushers@[i].body == a && self.pushers@[i].head == b) || (self.pushers@[i].body == b && self.pushers@[i].head == a))
    }

    /// One step of a walk; with `undirected_only`, pushers are not walked at all.
    pub open spec fn step(&self, cuts: Set<u64>, undirected_only: bool, a: u64, b: u64) -> bool {
        self.linked(a, b) || (!undirected_only && self.paired(cuts, a, b))
    }

    pub open spec fn is_walk(&self, cuts: Set<u64>, undirected_only: bool, path: Seq<u64>) -> bool {
        &&& path.len() >= 1
        &&& forall|i: int| 0 <= i < path.len() - 1 ==> self.step(cuts, undirected_only, #[trigger] path[i], path[i + 1])
    }

    /// The nodes a walk from `start` reaches, `start` included.
    pub open spec fn reach(&self, cuts: Set<u64>, undirected_only: bool, start: u64) -> Set<u64> {
        Set::new(
            |x: u64|
                exists|path: Seq<u64>| #[trigger] self.is_walk(cuts, undirected_only, path) && path[0] == start && path.last() == x,
        )
    }

    /// Every node named by the graph, and `start`.
    pub open spec fn node_seq(&self, start: u64) -> Seq<u64> {
        self.links@.map_values(|l: (u64, u64)| l.0) + self.links@.map_values(|l: (u64, u64)| l.1)
            + self.pushers@.map_values(|p: DeformPusher| p.body) + self.pushers@.map_values(|p: DeformPusher| p.head) + seq![start]
    }

    proof fn lemma_reach_start(&self, cuts: Set<u64>, uo: bool, start: u64)
        ensures
            self.reach(cuts, uo, start).contains(start),
    {
        assert(self.is_walk(cuts, uo, seq![start]));
    }

    proof fn lemma_reach_extend(&self, cuts: Set<u64>, uo: bool, start: u64, a: u64, b: u64)
        requires
            self.reach(cuts, uo, start).contains(a),
            self.step(cuts, uo, a, b),
        ensures
            self.reach(cuts, uo, start).contains(b),
    {
        let path = choose|path: Seq<u64>| #[trigger] self.is_walk(cuts, uo, path) && path[0] == start && path.last() == a;
        let p2 = path.push(b);
        assert forall|i: int| 0 <= i < p2.len() - 1 implies self.step(cuts, uo, #[trigger] p2[i], p2[i + 1]) by {
            assert(p2[i] == path[i]);
            if i < path.len() - 1 {
                assert(p2[i + 1] == path[i + 1]);
            }
        }
        assert(self.is_walk(cuts, uo, p2));
    }

    proof fn lemma_closed_holds_reach(&self, cuts: Set<u64>, uo: bool, start: u64, s: Set<u64>, path: Seq<u64>)
        requires
            s.contains(start),
            forall|a: u64, b: u64| #![trigger s.contains(a), self.step(cuts, uo, a, b)]
                s.contains(a) && self.step(cuts, uo, a, b) ==> s.contains(b),
            self.is_walk(cuts, uo, path),
            path[0] == start,
        ensures
            s.contains(path.last()),
        decreases path.len(),
    {
        if path.len() > 1 {
            let prefix = path.drop_last();
            assert(self.is_walk(cuts, uo, prefix)) by {
                assert forall|i: int| 0 <= i < prefix.len() - 1 implies self.step(cuts, uo, #[trigger] prefix[i], prefix[i + 1]) by {
                    assert(prefix[i] == path[i]);
                    assert(prefix[i + 1] == path[i + 1]);
                }
            }
            self.lemma_closed_holds_reach(cuts, uo, start, s, prefix);
            let n = path.len() - 1;
            assert(self.step(cuts, uo, path[n - 1], path[n]));
        }
    }
}

/// The walk's bookkeeping: `seen` and `sorted` hold the queued nodes.
pub open spec fn walk_books(seen: Set<u64>, sorted: Seq<u64>, queue: Seq<u64>) -> bool {
    &&& queue.no_duplicates()
    &&& seen == queue.to_set()
    &&& sorted.to_set() == seen
    &&& ids_sorted(sorted)
}

/// Queues a node not seen before.
fn enqueue(seen: &mut HashSet<u64>, sorted: &mut Vec<u64>, queue: &mut Vec<u64>, x: u64)
    requires
        walk_books(old(seen)@, old(sorted)@, old(queue)@),
        !old(seen)@.contains(x),
    ensures
        walk_books(final(seen)@, final(sorted)@, final(queue)@),
        final(queue)@ == old(queue)@.push(x),
        final(seen)@ == old(seen)@.insert(x),
{
    let ghost q0 = queue@;
    let ghost s0 = sorted@;
    proof {
        assert(!s0.contains(x)) by {
            if s0.contains(x) {
                assert(s0.to_set().contains(x));
            }
        }
    }
    seen.insert(x);
    insert_sorted_id(sorted, x);
    queue.push(x);
    proof {
        q0.lemma_push_to_set_commute(x);
        assert(!q0.contains(x)) by {
            if q0.contains(x) {
                assert(q0.to_set().contains(x));
            }
        }
        assert(queue@.no_duplicates()) by {
            assert forall|a: int, b: int| 0 <= a < queue@.len() && 0 <= b < queue@.len() && a != b implies queue@[a] != queue@[b] by {
                if a < q0.len() && b < q0.len() {
                    assert(queue@[a] == q0[a] && queue@[b] == q0[b]);
                } else if a < q0.len() {
                    assert(queue@[a] == q0[a]);
                    assert(q0.contains(q0[a]));
                } else if b < q0.len() {
                    assert(queue@[b] == q0[b]);
                    assert(q0.contains(q0[b]));
                }
            }
        }
        assert(sorted@.to_set() =~= seen@) by {
            assert forall|y: u64| sorted@.to_set().contains(y) <==> seen@.contains(y) by {
                assert(sorted@.to_set().contains(y) == sorted@.contains(y));
                assert(s0.to_set().contains(y) == s0.contains(y));
            }
        }
    }
}


/// The walk's progress from `start`: what is queued has been reached, the forbidden
/// node has not been met, every queued node is a node of the graph, and the
/// neighbours of the first `head` queued nodes are queued.
pub open spec fn walk_progress(
    g: &DeformGraph,
    cuts: Set<u64>,
    uo: bool,
    start: u64,
    forbidden: u64,
    seen: Set<u64>,
    queue: Seq<u64>,
    head: int,
) -> bool {
    &&& queue.len() >= 1
    &&& queue[0] == start
    &&& 0 <= head <= queue.len()
    &&& forall|x: u64| #[trigger] seen.contains(x) ==> g.reach(cuts, uo, start).contains(x)
    &&& !seen.contains(forbidden)
    &&& forall|x: u64| #[trigger] seen.contains(x) ==> g.node_seq(start).contains(x)
    &&& forall|t: int, b: u64| 0 <= t < head && #[trigger] g.step(cuts, uo, queue[t], b) ==> seen.contains(b)
}

impl DeformGraph {
    /// Walks from `start` with the pushers of `cuts` cut (and with no pusher at all when
    /// `undirected_only`): `None` when the walk meets `forbidden` (a ring), else the
    /// nodes reached, in increasing order.
    pub fn propagate_with_cuts(&self, start: u64, forbidden: u64, cuts: &HashSet<u64>, undirected_only: bool) -> (r: Option<Vec<u64>>)
        requires
            start != forbidden,
        ensures
            match r {
                None => self.reach(cuts@, undirected_only, start).contains(forbidden),
                Some(nodes) => !self.reach(cuts@, undirected_only, start).contains(forbidden)
                    && ids_sorted(nodes@) && nodes@.to_set() == self.reach(cuts@, undirected_only, start),
            },
    {
        let ghost cs = cuts@;
        let ghost uo = undirected_only;
        let ghost bound = self.node_seq(start);
        let mut seen: HashSet<u64> = HashSet::new();
        let mut sorted: Vec<u64> = Vec::new();
        let mut queue: Vec<u64> = Vec::new();
        proof {
            assert(walk_books(seen@, sorted@, queue@)) by {
                assert(queue@.to_set() =~= Set::<u64>::empty());
                assert(sorted@.to_set() =~= Set::<u64>::empty());
            }
        }
        enqueue(&mut seen, &mut sorted, &mut queue, start);
        proof {
            self.lemma_reach_start(cs, uo, start);
            assert(seen@ =~= set![start]);
            assert(bound[bound.len() - 1] == start);
        }
        let mut head: usize = 0;
        while head < queue.len()
            invariant
                cs == cuts@,
                uo == undirected_only,
                bound == self.node_seq(start),
                walk_books(seen@, sorted@, queue@),
                walk_progress(self, cs, uo, start, forbidden, seen@, queue@, head as int),
            decreases bound.len() - head,
        {
            proof {
                assert(queue@.to_set().subset_of(bound.to_set())) by {
                    assert forall|x: u64| queue@.to_set().contains(x) implies bound.to_set().contains(x) by {
                        assert(seen@.contains(x));
                    }
                }
                queue@.unique_seq_to_set();
                bound.lemma_cardinality_of_set();
                vstd::set_lib::lemma_len_subset(queue@.to_set(), bound.to_set());
            }
            let node = queue[head];
            proof {
                assert(seen@.contains(node));
            }
            let ghost q_head = queue@;
            let mut i: usize = 0;
            while i < self.links.len()
                invariant
                    cs == cuts@,
                    uo == undirected_only,
                    bound == self.node_seq(start),
                    walk_books(seen@, sorted@, queue@),
                    walk_progress(self, cs, uo, start, forbidden, seen@, queue@, head as int),
                    head < queue@.len(),
                    node == queue@[head as int],
                    i <= self.links@.len(),
                    forall|i2: int| #![trigger self.links@[i2]] 0 <= i2 < i ==> (self.links@[i2].0 == node ==> seen@.contains(self.links@[i2].1))
                        && (self.links@[i2].1 == node ==> seen@.contains(self.links@[i2].0)),
                decreases self.links@.len() - i,
            {
                let (x, y) = self.links[i];
                proof {
                    assert(queue@.contains(queue@[head as int]));
                    assert(seen@.contains(node));
                    assert(self.reach(cs, uo, start).contains(node));
                }
                if x == node {
                    proof {
                        assert(self.linked(node, y));
                    }
                    if y == forbidden {
                        proof {
                            self.lemma_reach_extend(cs, uo, start, node, y);
                        }
                        return None;
                    }
                    if !seen.contains(&y) {
                        proof {
                            self.lemma_reach_extend(cs, uo, start, node, y);
                            let k = self.links@.len() + i;
                            assert(bound[k] == y);
                        }
                        let ghost q0 = queue@;
                        enqueue(&mut seen, &mut sorted, &mut queue, y);
                        proof {
                            assert forall|t: int, b: u64| 0 <= t < head && #[trigger] self.step(cs, uo, queue@[t], b) implies seen@.contains(b) by {
                                assert(queue@[t] == q0[t]);
                            }
                            assert(queue@[head as int] == q0[head as int]);
                        }
                    }
                }
                if y == node {
                    proof {
                        assert(self.linked(node, x));
                    }
                    if x == forbidden {
                        proof {
                            self.lemma_reach_extend(cs, uo, start, node, x);
                        }
                        return None;
                    }
                    if !seen.contains(&x) {
                        proof {
                            self.lemma_reach_extend(cs, uo, start, node, x);
                            assert(bound[i as int] == x);
                        }
                        let ghost q0 = queue@;
                        enqueue(&mut seen, &mut sorted, &mut queue, x);
                        proof {
                            assert forall|t: int, b: u64| 0 <= t < head && #[trigger] self.step(cs, uo, queue@[t], b) implies seen@.contains(b) by {
                                assert(queue@[t] == q0[t]);
                            }
                            assert(queue@[head as int] == q0[head as int]);
                        }
                    }
                }
                i = i + 1;
            }
            if !undirected_only {
                let mut i: usize = 0;
                while i < self.pushers.len()
                    invariant
                        cs == cuts@,
                        uo == undirected_only,
                        !uo,
                        bound == self.node_seq(start),
                        walk_books(seen@, sorted@, queue@),
                        walk_progress(self, cs, uo, start, forbidden, seen@, queue@, head as int),
                        head < queue@.len(),
                        node == queue@[head as int],
                        i <= self.pushers@.len(),
                        forall|b: u64| #[trigger] self.linked(node, b) ==> seen@.contains(b),
                        forall|i2: int| #![trigger self.pushers@[i2]] 0 <= i2 < i && !cs.contains(self.pushers@[i2].body) ==> (self.pushers@[i2].body == node
                            ==> seen@.contains(self.pushers@[i2].head)) && (self.pushers@[i2].head == node ==> seen@.contains(self.pushers@[i2].body)),
                    decreases self.pushers@.len() - i,
                {
                    let body = self.pushers[i].body;
                    let hd = self.pushers[i].head;
                    proof {
                        assert(queue@.contains(queue@[head as int]));
                        assert(seen@.contains(node));
                        assert(self.reach(cs, uo, start).contains(node));
                    }
                    if !cuts.contains(&body) {
                        if body == node {
                            proof {
                                assert(self.paired(cs, node, hd));
                            }
                            if hd == forbidden {
                                proof {
                                    self.lemma_reach_extend(cs, uo, start, node, hd);
                                }
                                return None;
                            }
                            if !seen.contains(&hd) {
                                proof {
                                    self.lemma_reach_extend(cs, uo, start, node, hd);
                                    let k = 2 * self.links@.len() + self.pushers@.len() + i;
                                    assert(bound[k] == hd);
                                }
                                let ghost q0 = queue@;
                                enqueue(&mut seen, &mut sorted, &mut queue, hd);
                                proof {
                                    assert forall|t: int, b: u64| 0 <= t < head && #[trigger] self.step(cs, uo, queue@[t], b) implies seen@.contains(b) by {
                                        assert(queue@[t] == q0[t]);
                                    }
                                    assert(queue@[head as int] == q0[head as int]);
                                }
                            }
                        }
                        if hd == node {
                            proof {
                                assert(self.paired(cs, node, body));
                            }
                            if body == forbidden {
                                proof {
                                    self.lemma_reach_extend(cs, uo, start, node, body);
                                }
                                return None;
                            }
                            if !seen.contains(&body) {
                                proof {
                                    self.lemma_reach_extend(cs, uo, start, node, body);
                                    let k = 2 * self.links@.len() + i;
                                    assert(bound[k] == body);
                                }
                                let ghost q0 = queue@;
                                enqueue(&mut seen, &mut sorted, &mut queue, body);
                                proof {
                                    assert forall|t: int, b: u64| 0 <= t < head && #[trigger] self.step(cs, uo, queue@[t], b) implies seen@.contains(b) by {
                                        assert(queue@[t] == q0[t]);
                                    }
                                    assert(queue@[head as int] == q0[head as int]);
                                }
                            }
                        }
                    }
                    i = i + 1;
                }
                proof {
                    assert forall|b: u64| #[trigger] self.paired(cs, node, b) implies seen@.contains(b) by {
                        let i2 = choose|i2: int| #![trigger self.pushers@[i2]] 0 <= i2 < self.pushers@.len() && !cs.contains(self.pushers@[i2].body) && (
                            (self.pushers@[i2].body == node && self.pushers@[i2].head == b) || (self.pushers@[i2].body == b && self.pushers@[i2].head == node));
                    }
                }
            }
            proof {
                assert forall|b: u64| #[trigger] self.step(cs, uo, node, b) implies seen@.contains(b) by {
                    if self.linked(node, b) {
                        let i2 = choose|i2: int| #![trigger self.links@[i2]] 0 <= i2 < self.links@.len() && (self.links@[i2] == (node, b) || self.links@[i2] == (b, node));
                    }
                }
                assert forall|t: int, b: u64| 0 <= t < head + 1 && #[trigger] self.step(cs, uo, queue@[t], b) implies seen@.contains(b) by {
                    if t == head {
                        assert(queue@[t] == node);
                    }
                }
            }
            head = head + 1;
        }
        proof {
            let r = self.reach(cs, uo, start);
            assert forall|a: u64, b: u64| #![trigger seen@.contains(a), self.step(cs, uo, a, b)]
                seen@.contains(a) && self.step(cs, uo, a, b) implies seen@.contains(b) by {
                assert(queue@.to_set().contains(a));
                let t = choose|t: int| 0 <= t < queue@.len() && queue@[t] == a;
            }
            assert(seen@.contains(start)) by {
                assert(queue@.to_set().contains(queue@[0]));
            }
            assert forall|x: u64| r.contains(x) implies seen@.contains(x) by {
                let path = choose|path: Seq<u64>| #[trigger] self.is_walk(cs, uo, path) && path[0] == start && path.last() == x;
                self.lemma_closed_holds_reach(cs, uo, start, seen@, path);
            }
            assert(sorted@.to_set() =~= r);
        }
        Some(sorted)
    }
}

} // verus!

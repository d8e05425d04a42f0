//! Walking a graph, breadth first and depth first.
use crate::bytemap::ByteMap;
use crate::bytes::{bytes_equal, copy_bytes};
use crate::graph::edges::{seen_edge, seen_edges, EdgeSlot};
use crate::graph::memory::MemoryGraphTable;
use crate::table::TableResult;
use vstd::prelude::*;

verus! {

/// A vertex that was visited, and whether the visitor wants to go on from there.
pub type Visit = (Seq<u8>, bool);

/// The queue and the vertices seen, once the targets were queued that had not been seen before.
pub open spec fn expanded(targets: Seq<Seq<u8>>, queue: Seq<Seq<u8>>, seen: Set<Seq<u8>>) -> (
    Seq<Seq<u8>>,
    Set<Seq<u8>>,
)
    decreases targets.len(),
{
    if targets.len() == 0 {
        (queue, seen)
    } else {
        let (q, s) = expanded(targets.drop_last(), queue, seen);
        let t = targets.last();
        if s.contains(t) {
            (q, s)
        } else {
            (q.push(t), s.insert(t))
        }
    }
}

/// What a walk calls on each vertex that it visits. A visitor whose code is not verified leaves the
/// trail as it is, and then answers for `visit` itself.
pub trait Visitor {
    /// The visits so far, in order.
    closed spec fn trail(&self) -> Seq<Visit> {
        arbitrary()
    }

    /// Visits a vertex. Returns whether the walk is to go on.
    fn visit(&mut self, vertex: &[u8]) -> (go_on: bool)
        ensures
            final(self).trail() == old(self).trail().push((vertex@, go_on)),
    ;
}

/// Notes the vertices of a walk, and ends it at the vertex that it looks for, if there is one.
#[derive(Debug)]
pub struct Trail {
    pub vertices: Vec<Vec<u8>>,
    pub goal: Option<Vec<u8>>,
}

impl Trail {
    /// The vertex is the one that is looked for.
    pub open spec fn is_goal(&self, vertex: Seq<u8>) -> bool {
        self.goal is Some && self.goal->Some_0@ == vertex
    }

    /// A trail without vertices.
    pub fn new(goal: Option<Vec<u8>>) -> (r: Self)
        ensures
            r.trail().len() == 0,
            r.vertices@.len() == 0,
            r.goal == goal,
    {
        Trail { vertices: Vec::new(), goal }
    }
}

impl Visitor for Trail {
    open spec fn trail(&self) -> Seq<Visit> {
        Seq::new(
            self.vertices@.len(),
            |i: int| (self.vertices@[i]@, !self.is_goal(self.vertices@[i]@)),
        )
    }

    fn visit(&mut self, vertex: &[u8]) -> (go_on: bool)
        ensures
            final(self).goal == old(self).goal,
            go_on == !old(self).is_goal(vertex@),
    {
        let found: bool = match &self.goal {
            Some(g) => bytes_equal(g.as_slice(), vertex),
            None => false,
        };
        self.vertices.push(copy_bytes(vertex));
        proof {
            assert(self.trail() =~= old(self).trail().push((vertex@, !found)));
        }
        !found
    }
}

/// The vertices of a trace.
pub open spec fn visited(trace: Seq<Visit>) -> Set<Seq<u8>> {
    Set::new(|v: Seq<u8>| exists|i: int| 0 <= i < trace.len() && (#[trigger] trace[i]).0 == v)
}

/// The visitor always wants to go on.
pub open spec fn never_stops(trace: Seq<Visit>) -> bool {
    forall|i: int| 0 <= i < trace.len() ==> (#[trigger] trace[i]).1
}

/// The targets of all edges among the first `n` that readers see.
pub open spec fn all_targets(slots: Seq<EdgeSlot>, n: int) -> Set<Seq<u8>>
    decreases n,
{
    if n <= 0 {
        Set::empty()
    } else {
        let before = all_targets(slots, n - 1);
        match seen_edge(slots[n - 1].chain@) {
            Some(e) => before.insert(e.target),
            None => before,
        }
    }
}

proof fn lemma_all_targets_finite(slots: Seq<EdgeSlot>, n: int)
    ensures
        all_targets(slots, n).finite(),
    decreases n,
{
    if n > 0 {
        lemma_all_targets_finite(slots, n - 1);
    }
}

proof fn lemma_targets(slots: Seq<EdgeSlot>, vertex: Seq<u8>, n: int, i: int)
    requires
        0 <= i < seen_edges(slots, vertex, None, n).len(),
    ensures
        all_targets(slots, n).contains(seen_edges(slots, vertex, None, n)[i].target),
    decreases n,
{
    if n > 0 {
        let before = seen_edges(slots, vertex, None, n - 1);
        if i < before.len() {
            lemma_targets(slots, vertex, n - 1, i);
        }
    }
}

proof fn lemma_expanded(targets: Seq<Seq<u8>>, queue: Seq<Seq<u8>>, seen: Set<Seq<u8>>)
    ensures
        ({
            let (q, s) = expanded(targets, queue, seen);
            &&& q.len() >= queue.len()
            &&& q.take(queue.len() as int) == queue
            &&& forall|i: int| queue.len() <= i < q.len() ==> !seen.contains(#[trigger] q[i])
            &&& forall|i: int| queue.len() <= i < q.len() ==> s.contains(#[trigger] q[i])
            &&& forall|i: int, j: int|
                queue.len() <= i < j < q.len() ==> #[trigger] q[i] != #[trigger] q[j]
            &&& forall|v: Seq<u8>| #[trigger]
                s.contains(v) <==> seen.contains(v) || exists|i: int|
                    queue.len() <= i < q.len() && #[trigger] q[i] == v
            &&& forall|i: int| 0 <= i < targets.len() ==> s.contains(#[trigger] targets[i])
            &&& forall|v: Seq<u8>| #[trigger]
                s.contains(v) ==> seen.contains(v) || targets.contains(v)
        }),
    decreases targets.len(),
{
    if targets.len() == 0 {
        assert(queue.take(queue.len() as int) =~= queue);
    } else {
        let before = targets.drop_last();
        let t = targets.last();
        lemma_expanded(before, queue, seen);
        let (q0, s0) = expanded(before, queue, seen);
        let (q, s) = expanded(targets, queue, seen);
        assert(q.take(queue.len() as int) =~= q0.take(queue.len() as int));
        assert forall|v: Seq<u8>| #[trigger] s.contains(v) implies seen.contains(v)
            || targets.contains(v) by {
            if s0.contains(v) {
                if before.contains(v) {
                    let i = before.index_of(v);
                    assert(targets[i] == v);
                }
            } else {
                assert(targets[targets.len() - 1] == v);
            }
        }
        assert forall|v: Seq<u8>| #[trigger]
            s.contains(v) <==> seen.contains(v) || exists|i: int|
                queue.len() <= i < q.len() && #[trigger] q[i] == v by {
            if s0.contains(v) && !seen.contains(v) {
                let i = choose|i: int| queue.len() <= i < q0.len() && #[trigger] q0[i] == v;
                assert(q[i] == v);
            }
            if v == t && !s0.contains(t) {
                assert(q[q0.len() as int] == v);
            }
            if exists|i: int| queue.len() <= i < q.len() && #[trigger] q[i] == v {
                let i = choose|i: int| queue.len() <= i < q.len() && #[trigger] q[i] == v;
                if i < q0.len() {
                    assert(q0[i] == v);
                }
            }
        }
        assert forall|i: int| queue.len() <= i < q.len() implies !seen.contains(
            #[trigger] q[i],
        ) by {
            if i < q0.len() {
                assert(q0[i] == q[i]);
            }
        }
        assert forall|i: int| queue.len() <= i < q.len() implies s.contains(#[trigger] q[i]) by {
            if i < q0.len() {
                assert(q0[i] == q[i]);
            }
        }
        assert forall|i: int, j: int| queue.len() <= i < j < q.len() implies #[trigger] q[i]
            != #[trigger] q[j] by {
            assert(q0[i] == q[i]);
            if j < q0.len() {
                assert(q0[j] == q[j]);
            } else {
                assert(s0.contains(q0[i]));
            }
        }
        assert forall|i: int| 0 <= i < targets.len() implies s.contains(#[trigger] targets[i]) by {
            if i < before.len() {
                assert(before[i] == targets[i]);
                assert(s0.contains(before[i]));
            }
        }
    }
}

/// The second trail starts with the first.
pub open spec fn is_longer(before: Seq<Visit>, after: Seq<Visit>) -> bool {
    before.len() <= after.len() && after.take(before.len() as int) == before
}

proof fn lemma_longer(before: Seq<Visit>, trace: Seq<Visit>)
    ensures
        is_longer(before, before + trace),
        (before + trace).skip(before.len() as int) == trace,
{
    assert((before + trace).take(before.len() as int) =~= before);
    assert((before + trace).skip(before.len() as int) =~= trace);
}

impl MemoryGraphTable {
    /// A walk from the vertices in the queue, breadth first: each vertex in its turn, its
    /// unseen neighbours at the end of the queue, until the visitor stops it.
    pub open spec fn is_bfs(
        &self,
        queue: Seq<Seq<u8>>,
        seen: Set<Seq<u8>>,
        trace: Seq<Visit>,
    ) -> bool
        decreases trace.len(),
    {
        if trace.len() == 0 {
            queue.len() == 0
        } else {
            &&& queue.len() > 0
            &&& trace[0].0 == queue[0]
            &&& if trace[0].1 {
                let (q, s) = expanded(self.adjacent(queue[0]), queue.drop_first(), seen);
                self.is_bfs(q, s, trace.drop_first())
            } else {
                trace.len() == 1
            }
        }
    }

    /// A walk through the vertices on the list, depth first: each vertex that was not seen yet,
    /// with its neighbours in front of the rest of the list, until the visitor stops it.
    pub open spec fn is_dfs(
        &self,
        list: Seq<Seq<u8>>,
        seen: Set<Seq<u8>>,
        trace: Seq<Visit>,
    ) -> bool
        decreases trace.len(), list.len(),
    {
        if list.len() == 0 {
            trace.len() == 0
        } else if seen.contains(list[0]) {
            self.is_dfs(list.drop_first(), seen, trace)
        } else {
            &&& trace.len() > 0
            &&& trace[0].0 == list[0]
            &&& if trace[0].1 {
                self.is_dfs(
                    self.adjacent(list[0]) + list.drop_first(),
                    seen.insert(list[0]),
                    trace.drop_first(),
                )
            } else {
                trace.len() == 1
            }
        }
    }

    spec fn targets(&self) -> Set<Seq<u8>> {
        if self.config.use_memory_index {
            all_targets(self.outgoing_edges.slots@, self.outgoing_edges.slots@.len() as int)
        } else {
            Set::empty()
        }
    }

    proof fn lemma_adjacent(&self, v: Seq<u8>)
        ensures
            self.targets().finite(),
            forall|i: int|
                0 <= i < self.adjacent(v).len() ==> self.targets().contains(
                    #[trigger] self.adjacent(v)[i],
                ),
    {
        let slots = self.outgoing_edges.slots@;
        lemma_all_targets_finite(slots, slots.len() as int);
        assert forall|i: int| 0 <= i < self.adjacent(v).len() implies self.targets().contains(
            #[trigger] self.adjacent(v)[i],
        ) by {
            lemma_targets(slots, v, slots.len() as int, i);
        }
    }

    fn enqueue(&self, targets: Vec<Vec<u8>>, queue: &mut Vec<Vec<u8>>, seen: &mut ByteMap<()>)
        requires
            old(seen).wf(),
        ensures
            final(seen).wf(),
            (names(final(queue)@), final(seen)@.dom()) == expanded(
                names(targets@),
                names(old(queue)@),
                old(seen)@.dom(),
            ),
    {
        let ghost ts = names(targets@);
        let ghost q0 = names(queue@);
        let ghost s0 = seen@.dom();
        let mut i: usize = 0;
        assert(ts.take(0) =~= Seq::empty());
        while i < targets.len()
            invariant
                i <= targets@.len() == ts.len(),
                ts == names(targets@),
                seen.wf(),
                (names(queue@), seen@.dom()) == expanded(ts.take(i as int), q0, s0),
            decreases targets@.len() - i,
        {
            let ghost before = queue@;
            let ghost dom = seen@.dom();
            proof {
                assert(ts.take(i + 1).drop_last() =~= ts.take(i as int));
                assert(ts.take(i + 1).last() == ts[i as int]);
            }
            if !seen.contains_key(targets[i].as_slice()) {
                let _ = seen.insert(copy_bytes(targets[i].as_slice()), ());
                queue.push(copy_bytes(targets[i].as_slice()));
                proof {
                    assert(names(queue@) =~= names(before).push(ts[i as int]));
                    assert(seen@.dom() =~= dom.insert(ts[i as int]));
                }
            }
            i += 1;
        }
        assert(ts.take(i as int) =~= ts);
    }

    /// Visits the vertices that can be reached, breadth first, until the visitor returns false.
    pub fn bfs<V: Visitor>(&self, start: &[u8], visitor: &mut V) -> (r: TableResult<()>)
        ensures
            r is Ok,
            is_longer(old(visitor).trail(), final(visitor).trail()),
            self.is_bfs(
                seq![start@],
                set![start@],
                final(visitor).trail().skip(old(visitor).trail().len() as int),
            ),
    {
        let ghost before = visitor.trail();
        let mut seen: ByteMap<()> = ByteMap::new();
        let _ = seen.insert(copy_bytes(start), ());
        let mut queue: Vec<Vec<u8>> = Vec::new();
        queue.push(copy_bytes(start));
        let ghost mut trace: Seq<Visit> = Seq::empty();
        let ghost q0 = seq![start@];
        let ghost s0 = set![start@];
        proof {
            self.lemma_adjacent(start@);
            assert(names(queue@) =~= q0);
            assert(seen@.dom() =~= s0);
            assert forall|rest: Seq<Visit>| #[trigger]
                self.is_bfs(names(queue@), seen@.dom(), rest) implies self.is_bfs(
                q0,
                s0,
                trace + rest,
            ) by {
                assert(trace + rest =~= rest);
            }
            assert(self.targets().difference(seen@.dom()).finite());
            assert(before + trace =~= before);
        }
        while queue.len() > 0
            invariant
                seen.wf(),
                self.targets().finite(),
                before == old(visitor).trail(),
                visitor.trail() == before + trace,
                forall|rest: Seq<Visit>| #[trigger]
                    self.is_bfs(names(queue@), seen@.dom(), rest) ==> self.is_bfs(
                        q0,
                        s0,
                        trace + rest,
                    ),
                q0 == seq![start@],
                s0 == set![start@],
            decreases self.targets().difference(seen@.dom()).len() + queue@.len(),
        {
            let ghost q1 = names(queue@);
            let ghost s1 = seen@.dom();
            let ghost trace1 = trace;
            let ghost n1 = self.targets().difference(s1).len() + queue@.len();
            let v = queue.remove(0);
            proof {
                assert(names(queue@) =~= q1.drop_first());
                assert(v@ == q1[0]);
            }
            let go_on: bool = visitor.visit(v.as_slice());
            let ghost step = (v@, go_on);
            proof {
                trace = trace.push(step);
                assert((before + trace1).push(step) =~= before + trace);
            }
            if !go_on {
                proof {
                    let rest = seq![step];
                    assert(self.is_bfs(q1, s1, rest));
                    assert(trace1 + rest =~= trace);
                    assert(self.is_bfs(q0, s0, trace));
                    lemma_longer(before, trace);
                }
                return Ok(());
            }
            let targets = match self.neighbors(v.as_slice()) {
                Ok(t) => t,
                Err(e) => return Err(e),
            };
            let ghost tail = names(queue@);
            assert(names(targets@) =~= self.adjacent(v@));
            self.enqueue(targets, &mut queue, &mut seen);
            proof {
                let q2 = names(queue@);
                let s2 = seen@.dom();
                assert forall|rest: Seq<Visit>| #[trigger] self.is_bfs(q2, s2, rest) implies self.is_bfs(
                    q0,
                    s0,
                    trace + rest,
                ) by {
                    let longer = seq![step] + rest;
                    assert(longer.drop_first() =~= rest);
                    assert(self.is_bfs(q1, s1, longer));
                    assert(trace1 + longer =~= trace + rest);
                }
                self.lemma_adjacent(v@);
                lemma_expanded(self.adjacent(v@), tail, s1);
                self.lemma_measure(self.adjacent(v@), tail, s1);
            }
        }
        proof {
            let none: Seq<Visit> = Seq::empty();
            assert(self.is_bfs(names(queue@), seen@.dom(), none));
            assert(trace + none =~= trace);
            assert(self.is_bfs(q0, s0, trace));
            lemma_longer(before, trace);
        }
        Ok(())
    }

    proof fn lemma_measure(&self, targets: Seq<Seq<u8>>, queue: Seq<Seq<u8>>, seen: Set<Seq<u8>>)
        requires
            self.targets().finite(),
            forall|i: int| 0 <= i < targets.len() ==> self.targets().contains(#[trigger] targets[i]),
        ensures
            ({
                let (q, s) = expanded(targets, queue, seen);
                self.targets().difference(s).len() + q.len() == self.targets().difference(
                    seen,
                ).len() + queue.len()
            }),
        decreases targets.len(),
    {
        if targets.len() > 0 {
            let before = targets.drop_last();
            let t = targets.last();
            assert forall|i: int| 0 <= i < before.len() implies self.targets().contains(
                #[trigger] before[i],
            ) by {
                assert(before[i] == targets[i]);
            }
            self.lemma_measure(before, queue, seen);
            let (q0, s0) = expanded(before, queue, seen);
            if !s0.contains(t) {
                assert(self.targets().contains(targets[targets.len() - 1]));
                assert(self.targets().difference(s0.insert(t)) =~= self.targets().difference(
                    s0,
                ).remove(t));
            }
        }
    }
}

/// The vertices as byte strings.
pub open spec fn names(vertices: Seq<Vec<u8>>) -> Seq<Seq<u8>> {
    Seq::new(vertices.len(), |i: int| vertices[i]@)
}

impl MemoryGraphTable {
    /// Visits the vertices that can be reached, depth first, until the visitor returns false.
    pub fn dfs<V: Visitor>(&self, start: &[u8], visitor: &mut V) -> (r: TableResult<()>)
        ensures
            r is Ok,
            is_longer(old(visitor).trail(), final(visitor).trail()),
            self.is_dfs(
                seq![start@],
                Set::empty(),
                final(visitor).trail().skip(old(visitor).trail().len() as int),
            ),
    {
        let ghost before = visitor.trail();
        let mut seen: ByteMap<()> = ByteMap::new();
        let mut list: Vec<Vec<u8>> = Vec::new();
        list.push(copy_bytes(start));
        let ghost mut trace: Seq<Visit> = Seq::empty();
        let ghost l0 = seq![start@];
        let ghost s0 = Set::<Seq<u8>>::empty();
        let ghost all = self.targets().insert(start@);
        proof {
            self.lemma_adjacent(start@);
            assert(names(list@) =~= l0);
            assert(seen@.dom() =~= s0);
            assert forall|rest: Seq<Visit>| #[trigger]
                self.is_dfs(names(list@), seen@.dom(), rest) implies self.is_dfs(
                l0,
                s0,
                trace + rest,
            ) by {
                assert(trace + rest =~= rest);
            }
            assert(before + trace =~= before);
        }
        while list.len() > 0
            invariant
                seen.wf(),
                before == old(visitor).trail(),
                visitor.trail() == before + trace,
                all == self.targets().insert(start@),
                all.finite(),
                forall|i: int| 0 <= i < list@.len() ==> all.contains((#[trigger] list@[i])@),
                forall|rest: Seq<Visit>| #[trigger]
                    self.is_dfs(names(list@), seen@.dom(), rest) ==> self.is_dfs(
                        l0,
                        s0,
                        trace + rest,
                    ),
                l0 == seq![start@],
                s0 == Set::<Seq<u8>>::empty(),
            decreases all.difference(seen@.dom()).len(), list@.len(),
        {
            let ghost l1 = names(list@);
            let ghost list1 = list@;
            let ghost s1 = seen@.dom();
            let ghost trace1 = trace;
            let v = list.remove(0);
            proof {
                assert(names(list@) =~= l1.drop_first());
                assert(v@ == l1[0]);
                assert(all.contains(list1[0]@));
                assert forall|i: int| 0 <= i < list@.len() implies all.contains(
                    (#[trigger] list@[i])@,
                ) by {
                    assert(list@[i] == list1[i + 1]);
                }
            }
            if seen.contains_key(v.as_slice()) {
                proof {
                    assert forall|rest: Seq<Visit>| #[trigger]
                        self.is_dfs(names(list@), s1, rest) implies self.is_dfs(
                        l0,
                        s0,
                        trace + rest,
                    ) by {
                        assert(self.is_dfs(l1, s1, rest));
                    }
                }
            } else {
                let _ = seen.insert(copy_bytes(v.as_slice()), ());
                let go_on: bool = visitor.visit(v.as_slice());
                let ghost step = (v@, go_on);
                proof {
                    assert(seen@.dom() =~= s1.insert(v@));
                    trace = trace.push(step);
                    assert((before + trace1).push(step) =~= before + trace);
                    assert(all.difference(s1.insert(v@)) =~= all.difference(s1).remove(v@));
                    assert(all.difference(s1).contains(v@));
                }
                if !go_on {
                    proof {
                        let rest = seq![step];
                        assert(self.is_dfs(l1, s1, rest));
                        assert(trace1 + rest =~= trace);
                        assert(self.is_dfs(l0, s0, trace));
                        lemma_longer(before, trace);
                    }
                    return Ok(());
                }
                let ghost tail = names(list@);
                let ghost tail_list = list@;
                let mut next = match self.neighbors(v.as_slice()) {
                    Ok(t) => t,
                    Err(e) => return Err(e),
                };
                let ghost targets = next@;
                proof {
                    self.lemma_adjacent(v@);
                    assert(names(targets) =~= self.adjacent(v@));
                }
                next.append(&mut list);
                list = next;
                proof {
                    assert(list@ =~= targets + tail_list);
                    assert(names(list@) =~= self.adjacent(v@) + tail);
                    assert forall|i: int| 0 <= i < list@.len() implies all.contains(
                        (#[trigger] list@[i])@,
                    ) by {
                        if i < targets.len() {
                            assert(self.targets().contains(self.adjacent(v@)[i]));
                        } else {
                            assert(all.contains(tail_list[i - targets.len()]@));
                        }
                    }
                }
                proof {
                    assert forall|rest: Seq<Visit>| #[trigger]
                        self.is_dfs(names(list@), seen@.dom(), rest) implies self.is_dfs(
                        l0,
                        s0,
                        trace + rest,
                    ) by {
                        let longer = seq![step] + rest;
                        assert(longer.drop_first() =~= rest);
                        assert(self.is_dfs(l1, s1, longer));
                        assert(trace1 + longer =~= trace + rest);
                    }
                }
            }
        }
        proof {
            let none: Seq<Visit> = Seq::empty();
            assert(self.is_dfs(names(list@), seen@.dom(), none));
            assert(trace + none =~= trace);
            assert(self.is_dfs(l0, s0, trace));
            lemma_longer(before, trace);
        }
        Ok(())
    }

    /// A walk breadth first that is not stopped visits no vertex twice, starts where it should,
    /// and visits every vertex that an edge leads to from a visited one.
    pub proof fn law_bfs_visits_all_reachable(&self, start: Seq<u8>, trace: Seq<Visit>)
        requires
            self.is_bfs(seq![start], set![start], trace),
            never_stops(trace),
        ensures
            trace.len() > 0 && trace[0].0 == start,
            forall|i: int, j: int|
                0 <= i < j < trace.len() ==> (#[trigger] trace[i]).0 != (#[trigger] trace[j]).0,
            forall|v: Seq<u8>, w: Seq<u8>| #[trigger]
                visited(trace).contains(v) && #[trigger] self.adjacent(v).contains(w) ==> visited(
                    trace,
                ).contains(w),
    {
        let queue = seq![start];
        let seen = set![start];
        self.lemma_bfs(queue, seen, trace);
        assert forall|v: Seq<u8>, w: Seq<u8>| #[trigger]
            visited(trace).contains(v) && #[trigger] self.adjacent(v).contains(w) implies visited(
            trace,
        ).contains(w) by {
            if w == start {
                assert(visited(trace).contains(queue[0]));
            }
        }
    }

    proof fn lemma_bfs(&self, queue: Seq<Seq<u8>>, seen: Set<Seq<u8>>, trace: Seq<Visit>)
        requires
            self.is_bfs(queue, seen, trace),
            never_stops(trace),
            queue.no_duplicates(),
            forall|i: int| 0 <= i < queue.len() ==> seen.contains(#[trigger] queue[i]),
        ensures
            forall|i: int| 0 <= i < queue.len() ==> visited(trace).contains(#[trigger] queue[i]),
            forall|v: Seq<u8>, w: Seq<u8>| #[trigger]
                visited(trace).contains(v) && #[trigger] self.adjacent(v).contains(w)
                    ==> seen.contains(w) || visited(trace).contains(w),
            forall|v: Seq<u8>| #[trigger]
                visited(trace).contains(v) && seen.contains(v) ==> queue.contains(v),
            forall|i: int, j: int|
                0 <= i < j < trace.len() ==> (#[trigger] trace[i]).0 != (#[trigger] trace[j]).0,
        decreases trace.len(),
    {
        if trace.len() > 0 {
            let v0 = queue[0];
            let tail = queue.drop_first();
            let rest = trace.drop_first();
            assert(trace[0].1);
            lemma_expanded(self.adjacent(v0), tail, seen);
            let (q, s) = expanded(self.adjacent(v0), tail, seen);
            assert(never_stops(rest)) by {
                assert forall|i: int| 0 <= i < rest.len() implies (#[trigger] rest[i]).1 by {
                    assert(rest[i] == trace[i + 1]);
                }
            }
            assert forall|i: int| 0 <= i < tail.len() implies #[trigger] q[i] == tail[i] by {
                assert(q.take(tail.len() as int)[i] == q[i]);
            }
            assert forall|i: int| 0 <= i < q.len() implies s.contains(#[trigger] q[i]) by {
                if i < tail.len() {
                    assert(seen.contains(queue[i + 1]));
                    assert(q[i] == tail[i]);
                }
            }
            assert(q.no_duplicates()) by {
                assert forall|i: int, j: int| 0 <= i < j < q.len() implies #[trigger] q[i]
                    != #[trigger] q[j] by {
                    if i < tail.len() {
                        assert(q[i] == queue[i + 1]);
                        if j < tail.len() {
                            assert(q[j] == queue[j + 1]);
                        } else {
                            assert(seen.contains(queue[i + 1]));
                        }
                    }
                }
            }
            self.lemma_bfs(q, s, rest);
            assert forall|v: Seq<u8>| #[trigger] visited(trace).contains(v) <==> v == v0 || visited(
                rest,
            ).contains(v) by {
                lemma_visited(trace, v);
            }
            assert forall|i: int| 0 <= i < queue.len() implies visited(trace).contains(
                #[trigger] queue[i],
            ) by {
                if i > 0 {
                    assert(q[i - 1] == queue[i]);
                }
            }
            assert forall|v: Seq<u8>, w: Seq<u8>| #[trigger]
                visited(trace).contains(v) && #[trigger] self.adjacent(v).contains(w) implies seen.contains(
            w) || visited(trace).contains(w) by {
                if v == v0 {
                    let k = self.adjacent(v0).index_of(w);
                    assert(s.contains(self.adjacent(v0)[k]));
                    if !seen.contains(w) {
                        let i = choose|i: int| tail.len() <= i < q.len() && #[trigger] q[i] == w;
                        assert(visited(rest).contains(q[i]));
                    }
                } else {
                    assert(visited(rest).contains(v));
                    if s.contains(w) && !seen.contains(w) {
                        let i = choose|i: int| tail.len() <= i < q.len() && #[trigger] q[i] == w;
                        assert(visited(rest).contains(q[i]));
                    }
                }
            }
            assert forall|v: Seq<u8>| #[trigger]
                visited(trace).contains(v) && seen.contains(v) implies queue.contains(v) by {
                if v == v0 {
                    assert(queue[0] == v);
                } else {
                    assert(visited(rest).contains(v) && s.contains(v));
                    assert(q.contains(v));
                    let i = q.index_of(v);
                    if i < tail.len() {
                        assert(queue[i + 1] == v);
                    } else {
                        assert(!seen.contains(q[i]));
                    }
                }
            }
            assert(!visited(rest).contains(v0)) by {
                if visited(rest).contains(v0) {
                    assert(seen.contains(queue[0]));
                    assert(s.contains(v0));
                    assert(q.contains(v0));
                    let i = q.index_of(v0);
                    if i < tail.len() {
                        assert(q[i] == queue[i + 1]);
                        assert(queue[i + 1] != queue[0]);
                    } else {
                        assert(!seen.contains(q[i]));
                    }
                }
            }
            assert forall|i: int, j: int| 0 <= i < j < trace.len() implies (#[trigger] trace[i]).0
                != (#[trigger] trace[j]).0 by {
                assert(trace[j] == rest[j - 1]);
                if i == 0 {
                    assert(visited(rest).contains(rest[j - 1].0));
                } else {
                    assert(trace[i] == rest[i - 1]);
                }
            }
        }
    }

    /// A walk depth first that is never held back visits no vertex twice, starts where it should,
    /// and visits every vertex that an edge leads to from a visited one.
    pub proof fn law_dfs_visits_all_reachable(&self, start: Seq<u8>, trace: Seq<Visit>)
        requires
            self.is_dfs(seq![start], Set::empty(), trace),
            never_stops(trace),
        ensures
            trace.len() > 0 && trace[0].0 == start,
            forall|i: int, j: int|
                0 <= i < j < trace.len() ==> (#[trigger] trace[i]).0 != (#[trigger] trace[j]).0,
            forall|v: Seq<u8>, w: Seq<u8>| #[trigger]
                visited(trace).contains(v) && #[trigger] self.adjacent(v).contains(w) ==> visited(
                    trace,
                ).contains(w),
    {
        self.lemma_dfs(seq![start], Set::empty(), trace);
    }

    proof fn lemma_dfs(&self, list: Seq<Seq<u8>>, seen: Set<Seq<u8>>, trace: Seq<Visit>)
        requires
            self.is_dfs(list, seen, trace),
            never_stops(trace),
        ensures
            forall|i: int|
                0 <= i < list.len() ==> seen.contains(#[trigger] list[i]) || visited(
                    trace,
                ).contains(list[i]),
            forall|v: Seq<u8>, w: Seq<u8>| #[trigger]
                visited(trace).contains(v) && #[trigger] self.adjacent(v).contains(w)
                    ==> seen.contains(w) || visited(trace).contains(w),
            forall|v: Seq<u8>| #[trigger] visited(trace).contains(v) ==> !seen.contains(v),
            forall|i: int, j: int|
                0 <= i < j < trace.len() ==> (#[trigger] trace[i]).0 != (#[trigger] trace[j]).0,
        decreases trace.len(), list.len(),
    {
        if list.len() > 0 {
            let v0 = list[0];
            let tail = list.drop_first();
            if seen.contains(v0) {
                self.lemma_dfs(tail, seen, trace);
                assert forall|i: int| 0 <= i < list.len() implies seen.contains(#[trigger] list[i])
                    || visited(trace).contains(list[i]) by {
                    if i > 0 {
                        assert(tail[i - 1] == list[i]);
                    }
                }
            } else {
                let rest = trace.drop_first();
                assert(trace[0].1);
                let next = self.adjacent(v0) + tail;
                let s = seen.insert(v0);
                assert(never_stops(rest)) by {
                    assert forall|i: int| 0 <= i < rest.len() implies (#[trigger] rest[i]).1 by {
                        assert(rest[i] == trace[i + 1]);
                    }
                }
                self.lemma_dfs(next, s, rest);
                assert forall|v: Seq<u8>| #[trigger] visited(trace).contains(v) <==> v == v0
                    || visited(rest).contains(v) by {
                    lemma_visited(trace, v);
                }
                assert forall|i: int| 0 <= i < list.len() implies seen.contains(#[trigger] list[i])
                    || visited(trace).contains(list[i]) by {
                    if i > 0 {
                        assert(next[self.adjacent(v0).len() + i - 1] == list[i]);
                    }
                }
                assert forall|v: Seq<u8>, w: Seq<u8>| #[trigger]
                    visited(trace).contains(v) && #[trigger] self.adjacent(v).contains(w) implies seen.contains(
                w) || visited(trace).contains(w) by {
                    if v == v0 {
                        let k = self.adjacent(v0).index_of(w);
                        assert(next[k] == w);
                    } else {
                        assert(visited(rest).contains(v));
                    }
                }
                assert forall|i: int, j: int| 0 <= i < j < trace.len() implies (
                #[trigger] trace[i]).0 != (#[trigger] trace[j]).0 by {
                    assert(trace[j] == rest[j - 1]);
                    if i == 0 {
                        assert(visited(rest).contains(rest[j - 1].0));
                    } else {
                        assert(trace[i] == rest[i - 1]);
                    }
                }
            }
        }
    }
}

/// The vertex is among the first `n` of a trace.
pub open spec fn visited_before(trace: Seq<Visit>, n: int, v: Seq<u8>) -> bool {
    exists|i: int| 0 <= i < n && (#[trigger] trace[i]).0 == v
}

impl MemoryGraphTable {
    /// At most `n` edges in a row lead from the start to the vertex.
    pub open spec fn within(&self, start: Seq<u8>, v: Seq<u8>, n: nat) -> bool
        decreases n,
    {
        if n == 0 {
            v == start
        } else {
            self.within(start, v, (n - 1) as nat) || exists|u: Seq<u8>|
                #![trigger self.adjacent(u)]
                self.within(start, u, (n - 1) as nat) && self.adjacent(u).contains(v)
        }
    }

    /// Edges in a row lead from the start to the vertex, or it is the start.
    pub open spec fn reaches(&self, start: Seq<u8>, v: Seq<u8>) -> bool {
        exists|n: nat| self.within(start, v, n)
    }

    proof fn lemma_reaches_on(&self, start: Seq<u8>, u: Seq<u8>, v: Seq<u8>)
        requires
            self.reaches(start, u),
            self.adjacent(u).contains(v),
        ensures
            self.reaches(start, v),
    {
        let n = choose|n: nat| self.within(start, u, n);
        assert(self.within(start, u, ((n + 1) - 1) as nat));
        assert(self.within(start, v, n + 1));
    }

    proof fn lemma_reached_is_held(&self, start: Seq<u8>, v: Seq<u8>, n: nat, held: Set<Seq<u8>>)
        requires
            self.within(start, v, n),
            held.contains(start),
            forall|u: Seq<u8>, w: Seq<u8>| #[trigger]
                held.contains(u) && #[trigger] self.adjacent(u).contains(w) ==> held.contains(w),
        ensures
            held.contains(v),
        decreases n,
    {
        if n > 0 {
            let m = (n - 1) as nat;
            if self.within(start, v, m) {
                self.lemma_reached_is_held(start, v, m, held);
            } else {
                let u = choose|u: Seq<u8>|
                    #![trigger self.adjacent(u)]
                    self.within(start, u, m) && self.adjacent(u).contains(v);
                self.lemma_reached_is_held(start, u, m, held);
                assert(held.contains(u) && self.adjacent(u).contains(v));
            }
        }
    }

    proof fn lemma_bfs_reaches(
        &self,
        start: Seq<u8>,
        queue: Seq<Seq<u8>>,
        seen: Set<Seq<u8>>,
        trace: Seq<Visit>,
    )
        requires
            self.is_bfs(queue, seen, trace),
            forall|i: int| 0 <= i < queue.len() ==> self.reaches(start, #[trigger] queue[i]),
        ensures
            forall|i: int| 0 <= i < trace.len() ==> self.reaches(start, (#[trigger] trace[i]).0),
        decreases trace.len(),
    {
        if trace.len() > 0 && trace[0].1 {
            let (v0, tail, rest) = (queue[0], queue.drop_first(), trace.drop_first());
            let targets = self.adjacent(v0);
            let (q, s) = expanded(targets, tail, seen);
            assert forall|i: int| 0 <= i < tail.len() implies self.reaches(
                start,
                #[trigger] tail[i],
            ) by {
                assert(tail[i] == queue[i + 1]);
            }
            assert forall|i: int| 0 <= i < targets.len() implies self.reaches(
                start,
                #[trigger] targets[i],
            ) by {
                self.lemma_reaches_on(start, v0, targets[i]);
            }
            self.lemma_expanded_reaches(start, targets, tail, seen);
            self.lemma_bfs_reaches(start, q, s, rest);
            assert forall|i: int| 0 <= i < trace.len() implies self.reaches(
                start,
                (#[trigger] trace[i]).0,
            ) by {
                if i > 0 {
                    assert(trace[i] == rest[i - 1]);
                } else {
                    assert(self.reaches(start, queue[0]));
                }
            }
        } else if trace.len() > 0 {
            assert(self.reaches(start, queue[0]));
        }
    }

    proof fn lemma_expanded_reaches(
        &self,
        start: Seq<u8>,
        targets: Seq<Seq<u8>>,
        queue: Seq<Seq<u8>>,
        seen: Set<Seq<u8>>,
    )
        requires
            forall|i: int| 0 <= i < queue.len() ==> self.reaches(start, #[trigger] queue[i]),
            forall|i: int| 0 <= i < targets.len() ==> self.reaches(start, #[trigger] targets[i]),
        ensures
            forall|i: int|
                0 <= i < expanded(targets, queue, seen).0.len() ==> self.reaches(
                    start,
                    #[trigger] expanded(targets, queue, seen).0[i],
                ),
    {
        lemma_expanded(targets, queue, seen);
        let (q, s) = expanded(targets, queue, seen);
        assert forall|i: int| 0 <= i < q.len() implies self.reaches(start, #[trigger] q[i]) by {
            if i < queue.len() {
                assert(q.take(queue.len() as int)[i] == q[i]);
            } else {
                assert(s.contains(q[i]) && !seen.contains(q[i]));
                let k = choose|k: int| 0 <= k < targets.len() && targets[k] == q[i];
                assert(self.reaches(start, targets[k]));
            }
        }
    }

    /// A walk breadth first, stopped or not, starts where it should, visits no vertex twice and
    /// none that no edges lead to, and goes on behind no vertex at which the visitor stopped it.
    /// One that is not stopped visits all that edges lead to.
    pub proof fn law_bfs_visits_reachable_once(&self, start: Seq<u8>, trace: Seq<Visit>)
        requires
            self.is_bfs(seq![start], set![start], trace),
        ensures
            trace.len() > 0 && trace[0].0 == start,
            forall|i: int, j: int|
                0 <= i < j < trace.len() ==> (#[trigger] trace[i]).0 != (#[trigger] trace[j]).0,
            forall|i: int| 0 <= i < trace.len() - 1 ==> (#[trigger] trace[i]).1,
            forall|i: int| 0 <= i < trace.len() ==> self.reaches(start, (#[trigger] trace[i]).0),
            never_stops(trace) ==> forall|v: Seq<u8>| #[trigger]
                self.reaches(start, v) ==> visited(trace).contains(v),
    {
        let queue = seq![start];
        assert(self.within(start, start, 0));
        self.lemma_bfs_order(queue, set![start], trace);
        self.lemma_bfs_reaches(start, queue, set![start], trace);
        if never_stops(trace) {
            self.law_bfs_visits_all_reachable(start, trace);
            assert(visited(trace).contains(start)) by {
                assert(trace[0].0 == start);
            }
            assert forall|v: Seq<u8>| #[trigger] self.reaches(start, v) implies visited(
                trace,
            ).contains(v) by {
                let n = choose|n: nat| self.within(start, v, n);
                self.lemma_reached_is_held(start, v, n, visited(trace));
            }
        }
    }

    proof fn lemma_dfs_once(
        &self,
        start: Seq<u8>,
        list: Seq<Seq<u8>>,
        seen: Set<Seq<u8>>,
        trace: Seq<Visit>,
    )
        requires
            self.is_dfs(list, seen, trace),
            forall|i: int| 0 <= i < list.len() ==> self.reaches(start, #[trigger] list[i]),
        ensures
            forall|i: int| 0 <= i < trace.len() ==> self.reaches(start, (#[trigger] trace[i]).0),
            forall|i: int| 0 <= i < trace.len() ==> !seen.contains((#[trigger] trace[i]).0),
            forall|i: int| 0 <= i < trace.len() - 1 ==> (#[trigger] trace[i]).1,
            forall|i: int, j: int|
                0 <= i < j < trace.len() ==> (#[trigger] trace[i]).0 != (#[trigger] trace[j]).0,
        decreases trace.len(), list.len(),
    {
        if list.len() > 0 {
            let v0 = list[0];
            let tail = list.drop_first();
            assert(self.reaches(start, list[0]));
            assert forall|i: int| 0 <= i < tail.len() implies self.reaches(
                start,
                #[trigger] tail[i],
            ) by {
                assert(tail[i] == list[i + 1]);
            }
            if seen.contains(v0) {
                self.lemma_dfs_once(start, tail, seen, trace);
            } else if trace[0].1 {
                let rest = trace.drop_first();
                let next = self.adjacent(v0) + tail;
                assert forall|i: int| 0 <= i < next.len() implies self.reaches(
                    start,
                    #[trigger] next[i],
                ) by {
                    if i < self.adjacent(v0).len() {
                        assert(next[i] == self.adjacent(v0)[i]);
                        self.lemma_reaches_on(start, v0, next[i]);
                    } else {
                        assert(next[i] == tail[i - self.adjacent(v0).len()]);
                    }
                }
                self.lemma_dfs_once(start, next, seen.insert(v0), rest);
                assert forall|i: int| 0 < i < trace.len() implies #[trigger] trace[i] == rest[i
                    - 1] by {}
                assert forall|i: int, j: int| 0 <= i < j < trace.len() implies (
                #[trigger] trace[i]).0 != (#[trigger] trace[j]).0 by {
                    assert(!seen.insert(v0).contains(rest[j - 1].0));
                    if i > 0 {
                        assert(rest[i - 1].0 != rest[j - 1].0);
                    }
                }
                assert forall|i: int| 0 <= i < trace.len() implies !seen.contains(
                    (#[trigger] trace[i]).0,
                ) by {
                    if i > 0 {
                        assert(!seen.insert(v0).contains(rest[i - 1].0));
                    }
                }
                assert forall|i: int| 0 <= i < trace.len() - 1 implies (#[trigger] trace[i]).1 by {
                    if i > 0 {
                        assert(rest[i - 1].1);
                    }
                }
                assert forall|i: int| 0 <= i < trace.len() implies self.reaches(
                    start,
                    (#[trigger] trace[i]).0,
                ) by {
                    if i > 0 {
                        assert(self.reaches(start, rest[i - 1].0));
                    }
                }
            }
        }
    }

    /// A walk depth first, stopped or not, starts where it should, visits no vertex twice and none
    /// that no edges lead to, and goes on behind no vertex at which the visitor stopped it. One
    /// that is not stopped visits all that edges lead to.
    pub proof fn law_dfs_visits_reachable_once(&self, start: Seq<u8>, trace: Seq<Visit>)
        requires
            self.is_dfs(seq![start], Set::empty(), trace),
        ensures
            trace.len() > 0 && trace[0].0 == start,
            forall|i: int, j: int|
                0 <= i < j < trace.len() ==> (#[trigger] trace[i]).0 != (#[trigger] trace[j]).0,
            forall|i: int| 0 <= i < trace.len() - 1 ==> (#[trigger] trace[i]).1,
            forall|i: int| 0 <= i < trace.len() ==> self.reaches(start, (#[trigger] trace[i]).0),
            never_stops(trace) ==> forall|v: Seq<u8>| #[trigger]
                self.reaches(start, v) ==> visited(trace).contains(v),
    {
        assert(self.within(start, start, 0));
        self.lemma_dfs_once(start, seq![start], Set::empty(), trace);
        if never_stops(trace) {
            self.law_dfs_visits_all_reachable(start, trace);
            assert(visited(trace).contains(start)) by {
                assert(trace[0].0 == start);
            }
            assert forall|v: Seq<u8>| #[trigger] self.reaches(start, v) implies visited(
                trace,
            ).contains(v) by {
                let n = choose|n: nat| self.within(start, v, n);
                self.lemma_reached_is_held(start, v, n, visited(trace));
            }
        }
    }

    /// A walk breadth first starts with the queue, and visits nothing seen after that.
    proof fn lemma_bfs_order(&self, queue: Seq<Seq<u8>>, seen: Set<Seq<u8>>, trace: Seq<Visit>)
        requires
            self.is_bfs(queue, seen, trace),
            queue.no_duplicates(),
            forall|i: int| 0 <= i < queue.len() ==> seen.contains(#[trigger] queue[i]),
        ensures
            forall|i: int|
                0 <= i < trace.len() && i < queue.len() ==> (#[trigger] trace[i]).0 == queue[i],
            forall|i: int|
                queue.len() <= i < trace.len() ==> !seen.contains((#[trigger] trace[i]).0),
            forall|i: int| 0 <= i < trace.len() - 1 ==> (#[trigger] trace[i]).1,
            forall|i: int, j: int|
                0 <= i < j < trace.len() ==> (#[trigger] trace[i]).0 != (#[trigger] trace[j]).0,
        decreases trace.len(),
    {
        if trace.len() > 0 && trace[0].1 {
            let (v0, tail, rest) = (queue[0], queue.drop_first(), trace.drop_first());
            let (q, s) = expanded(self.adjacent(v0), tail, seen);
            self.lemma_queue(queue, seen);
            self.lemma_bfs_order(q, s, rest);
            assert forall|i: int| 0 <= i < trace.len() && i < queue.len() implies (
            #[trigger] trace[i]).0 == queue[i] by {
                if i > 0 {
                    assert(trace[i] == rest[i - 1]);
                    assert(q[i - 1] == queue[i]);
                }
            }
            assert forall|i: int| queue.len() <= i < trace.len() implies !seen.contains(
                (#[trigger] trace[i]).0,
            ) by {
                assert(trace[i] == rest[i - 1]);
                if i - 1 < q.len() {
                    assert(!seen.contains(q[i - 1]));
                } else {
                    assert(!s.contains(rest[i - 1].0));
                }
            }
            assert forall|i: int| 0 <= i < trace.len() - 1 implies (#[trigger] trace[i]).1 by {
                if i > 0 {
                    assert(trace[i] == rest[i - 1]);
                }
            }
            assert forall|i: int, j: int| 0 <= i < j < trace.len() implies (#[trigger] trace[i]).0
                != (#[trigger] trace[j]).0 by {
                assert(trace[j] == rest[j - 1]);
                if i > 0 {
                    assert(trace[i] == rest[i - 1]);
                } else if j - 1 < q.len() {
                    assert(q[j - 1] != v0);
                } else {
                    assert(s.contains(v0));
                }
            }
        }
    }

    /// What is known of the queue after its first vertex was taken.
    proof fn lemma_queue(&self, queue: Seq<Seq<u8>>, seen: Set<Seq<u8>>)
        requires
            queue.len() > 0,
            queue.no_duplicates(),
            forall|i: int| 0 <= i < queue.len() ==> seen.contains(#[trigger] queue[i]),
        ensures
            ({
                let (q, s) = expanded(self.adjacent(queue[0]), queue.drop_first(), seen);
                &&& q.len() >= queue.len() - 1
                &&& q.no_duplicates()
                &&& forall|i: int| 0 <= i < queue.len() - 1 ==> #[trigger] q[i] == queue[i + 1]
                &&& forall|i: int| 0 <= i < q.len() ==> s.contains(#[trigger] q[i])
                &&& forall|i: int| 0 <= i < q.len() ==> #[trigger] q[i] != queue[0]
                &&& forall|i: int|
                    queue.len() - 1 <= i < q.len() ==> !seen.contains(#[trigger] q[i])
                        && self.adjacent(queue[0]).contains(q[i])
                &&& forall|v: Seq<u8>| #[trigger]
                    s.contains(v) ==> seen.contains(v) || exists|i: int|
                        queue.len() - 1 <= i < q.len() && #[trigger] q[i] == v
                &&& forall|v: Seq<u8>| seen.contains(v) ==> #[trigger] s.contains(v)
                &&& forall|v: Seq<u8>| #[trigger]
                    self.adjacent(queue[0]).contains(v) ==> s.contains(v)
            }),
    {
        let (v0, tail) = (queue[0], queue.drop_first());
        let (q, s) = expanded(self.adjacent(v0), tail, seen);
        lemma_expanded(self.adjacent(v0), tail, seen);
        assert forall|i: int| 0 <= i < tail.len() implies #[trigger] q[i] == queue[i + 1] by {
            assert(q.take(tail.len() as int)[i] == q[i]);
        }
        assert forall|i: int| 0 <= i < q.len() implies s.contains(#[trigger] q[i]) && q[i] != v0 by {
            assert(seen.contains(queue[0]));
            if i < tail.len() {
                assert(seen.contains(queue[i + 1]));
                assert(queue[i + 1] != queue[0]);
            }
        }
        assert(q.no_duplicates()) by {
            assert forall|i: int, j: int| 0 <= i < j < q.len() implies #[trigger] q[i]
                != #[trigger] q[j] by {
                if i < tail.len() {
                    assert(q[i] == queue[i + 1]);
                    if j < tail.len() {
                        assert(q[j] == queue[j + 1]);
                    } else {
                        assert(seen.contains(queue[i + 1]));
                    }
                }
            }
        }
        assert forall|i: int| tail.len() <= i < q.len() implies self.adjacent(v0).contains(
            #[trigger] q[i],
        ) by {
            assert(s.contains(q[i]));
        }
        assert forall|v: Seq<u8>| #[trigger] self.adjacent(v0).contains(v) implies s.contains(v) by {
            let i = self.adjacent(v0).index_of(v);
            assert(s.contains(self.adjacent(v0)[i]));
        }
    }

    /// While a neighbour of a visited vertex still waits, whatever is visited behind the queue is
    /// a neighbour of that vertex or of one before it.
    proof fn lemma_found_in_turn(
        &self,
        queue: Seq<Seq<u8>>,
        seen: Set<Seq<u8>>,
        trace: Seq<Visit>,
        i: int,
        a: int,
        w: Seq<u8>,
    ) -> (b: int)
        requires
            self.is_bfs(queue, seen, trace),
            queue.no_duplicates(),
            forall|k: int| 0 <= k < queue.len() ==> seen.contains(#[trigger] queue[k]),
            queue.len() <= i < trace.len(),
            0 <= a < i,
            self.adjacent(trace[a].0).contains(w),
            !seen.contains(w),
            !visited_before(trace, i + 1, w),
        ensures
            0 <= b <= a,
            self.adjacent(trace[b].0).contains(trace[i].0),
        decreases trace.len(),
    {
        let (v0, tail, rest) = (queue[0], queue.drop_first(), trace.drop_first());
        let (q, s) = expanded(self.adjacent(v0), tail, seen);
        self.lemma_bfs_order(queue, seen, trace);
        assert(trace[0].1);
        self.lemma_queue(queue, seen);
        self.lemma_bfs_order(q, s, rest);
        assert(trace[i] == rest[i - 1]);
        if i - 1 < q.len() {
            assert(rest[i - 1].0 == q[i - 1]);
            0
        } else {
            assert(!s.contains(w)) by {
                if s.contains(w) {
                    let k = choose|k: int| queue.len() - 1 <= k < q.len() && #[trigger] q[k] == w;
                    assert(rest[k].0 == w);
                    assert(trace[k + 1].0 == w);
                }
            }
            assert(a > 0);
            assert(trace[a] == rest[a - 1]);
            assert(!visited_before(rest, i, w)) by {
                if visited_before(rest, i, w) {
                    let k = choose|k: int| 0 <= k < i && (#[trigger] rest[k]).0 == w;
                    assert(trace[k + 1].0 == w);
                }
            }
            let b = self.lemma_found_in_turn(q, s, rest, i - 1, a - 1, w);
            assert(trace[b + 1] == rest[b]);
            b + 1
        }
    }

    proof fn lemma_nearest_first(
        &self,
        start: Seq<u8>,
        trace: Seq<Visit>,
        i: int,
        w: Seq<u8>,
        n: nat,
    )
        requires
            self.is_bfs(seq![start], set![start], trace),
            0 <= i < trace.len(),
            self.within(start, w, n),
            !visited_before(trace, i + 1, w),
        ensures
            self.within(start, trace[i].0, n),
        decreases n,
    {
        let (queue, seen) = (seq![start], set![start]);
        self.lemma_bfs_order(queue, seen, trace);
        assert(trace[0].0 == queue[0]);
        if n > 0 {
            if self.within(start, w, (n - 1) as nat) {
                self.lemma_nearest_first(start, trace, i, w, (n - 1) as nat);
            } else {
                let u = choose|u: Seq<u8>|
                    #![trigger self.adjacent(u)]
                    self.within(start, u, (n - 1) as nat) && self.adjacent(u).contains(w);
                if !visited_before(trace, i + 1, u) {
                    self.lemma_nearest_first(start, trace, i, u, (n - 1) as nat);
                } else {
                    let a = choose|a: int| 0 <= a < i + 1 && (#[trigger] trace[a]).0 == u;
                    if a < i {
                        let b = self.lemma_found_in_turn(queue, seen, trace, i, a, w);
                        let x = trace[b].0;
                        if b < a {
                            assert(!visited_before(trace, b + 1, u)) by {
                                if visited_before(trace, b + 1, u) {
                                    let k = choose|k: int|
                                        0 <= k < b + 1 && (#[trigger] trace[k]).0 == u;
                                    assert(trace[k].0 != trace[a].0);
                                }
                            }
                            self.lemma_nearest_first(start, trace, b, u, (n - 1) as nat);
                        }
                        assert(self.within(start, x, (n - 1) as nat));
                        assert(self.adjacent(x).contains(trace[i].0));
                    }
                }
            }
        }
    }

    /// A walk breadth first comes to the nearest vertices first, even if it is stopped: what is
    /// visited later, or not at all, is no fewer edges away from the start.
    pub proof fn law_bfs_visits_nearest_first(&self, start: Seq<u8>, trace: Seq<Visit>)
        requires
            self.is_bfs(seq![start], set![start], trace),
        ensures
            forall|i: int, j: int, n: nat|
                0 <= i < j < trace.len() && #[trigger] self.within(start, trace[j].0, n)
                    ==> #[trigger] self.within(start, trace[i].0, n),
            forall|i: int, w: Seq<u8>, n: nat|
                0 <= i < trace.len() && !visited(trace).contains(w) && #[trigger] self.within(
                    start,
                    w,
                    n,
                ) ==> #[trigger] self.within(start, trace[i].0, n),
    {
        self.lemma_bfs_order(seq![start], set![start], trace);
        assert forall|i: int, j: int, n: nat|
            0 <= i < j < trace.len() && #[trigger] self.within(
                start,
                trace[j].0,
                n,
            ) implies #[trigger] self.within(start, trace[i].0, n) by {
            assert(!visited_before(trace, i + 1, trace[j].0)) by {
                if visited_before(trace, i + 1, trace[j].0) {
                    let k = choose|k: int|
                        0 <= k < i + 1 && (#[trigger] trace[k]).0 == trace[j].0;
                    assert(trace[k].0 != trace[j].0);
                }
            }
            self.lemma_nearest_first(start, trace, i, trace[j].0, n);
        }
        assert forall|i: int, w: Seq<u8>, n: nat|
            0 <= i < trace.len() && !visited(trace).contains(w) && #[trigger] self.within(
                start,
                w,
                n,
            ) implies #[trigger] self.within(start, trace[i].0, n) by {
            self.lemma_nearest_first(start, trace, i, w, n);
        }
    }
}

proof fn lemma_visited(trace: Seq<Visit>, v: Seq<u8>)
    requires
        trace.len() > 0,
    ensures
        visited(trace).contains(v) <==> v == trace[0].0 || visited(trace.drop_first()).contains(v),
{
    let rest = trace.drop_first();
    if visited(trace).contains(v) {
        let i = choose|i: int| 0 <= i < trace.len() && (#[trigger] trace[i]).0 == v;
        if i > 0 {
            assert(rest[i - 1].0 == v);
        }
    }
    if visited(rest).contains(v) {
        let i = choose|i: int| 0 <= i < rest.len() && (#[trigger] rest[i]).0 == v;
        assert(trace[i + 1].0 == v);
    }
    if v == trace[0].0 {
        assert(trace[0].0 == v);
    }
}

impl MemoryGraphTable {
    proof fn lemma_first_unseen_is_next(
        &self,
        list: Seq<Seq<u8>>,
        seen: Set<Seq<u8>>,
        trace: Seq<Visit>,
        k: int,
    )
        requires
            self.is_dfs(list, seen, trace),
            0 <= k < list.len(),
            !seen.contains(list[k]),
            forall|j: int| 0 <= j < k ==> seen.contains(#[trigger] list[j]),
        ensures
            trace.len() > 0,
            trace[0].0 == list[k],
        decreases k,
    {
        if k > 0 {
            assert(seen.contains(list[0]));
            let rest = list.drop_first();
            assert forall|j: int| 0 <= j < k - 1 implies seen.contains(#[trigger] rest[j]) by {
                assert(rest[j] == list[j + 1]);
            }
            self.lemma_first_unseen_is_next(rest, seen, trace, k - 1);
        }
    }

    /// A walk in depth goes from a vertex to the first of its neighbours that was not visited yet,
    /// before it goes anywhere else.
    pub proof fn law_dfs_goes_to_an_unvisited_neighbour(
        &self,
        list: Seq<Seq<u8>>,
        seen: Set<Seq<u8>>,
        trace: Seq<Visit>,
        i: int,
        k: int,
    )
        requires
            self.is_dfs(list, seen, trace),
            0 <= i < trace.len(),
            trace[i].1,
            0 <= k < self.adjacent(trace[i].0).len(),
            !seen.contains(self.adjacent(trace[i].0)[k]),
            !visited_before(trace, i + 1, self.adjacent(trace[i].0)[k]),
            forall|j: int|
                0 <= j < k ==> seen.contains(#[trigger] self.adjacent(trace[i].0)[j])
                    || visited_before(trace, i + 1, self.adjacent(trace[i].0)[j]),
        ensures
            i + 1 < trace.len(),
            trace[i + 1].0 == self.adjacent(trace[i].0)[k],
        decreases trace.len(), list.len(),
    {
        let near = self.adjacent(trace[i].0);
        if seen.contains(list[0]) {
            self.law_dfs_goes_to_an_unvisited_neighbour(list.drop_first(), seen, trace, i, k);
        } else {
            let v = list[0];
            let rest = trace.drop_first();
            let deeper = self.adjacent(v) + list.drop_first();
            let more = seen.insert(v);
            assert(visited_before(trace, i + 1, v)) by {
                assert(trace[0].0 == v);
            }
            if i == 0 {
                assert forall|j: int| 0 <= j < k implies more.contains(#[trigger] deeper[j]) by {
                    assert(deeper[j] == near[j]);
                    if visited_before(trace, 1, near[j]) {
                        assert(trace[0].0 == near[j]);
                    }
                }
                assert(deeper[k] == near[k]);
                self.lemma_first_unseen_is_next(deeper, more, rest, k);
                assert(rest[0] == trace[1]);
            } else {
                assert(trace[0].1);
                assert(rest[i - 1] == trace[i]);
                assert forall|x: Seq<u8>| x != v implies visited_before(rest, i, x)
                    == #[trigger] visited_before(trace, i + 1, x) by {
                    if visited_before(trace, i + 1, x) {
                        let a = choose|a: int| 0 <= a < i + 1 && (#[trigger] trace[a]).0 == x;
                        assert(rest[a - 1].0 == x);
                    }
                    if visited_before(rest, i, x) {
                        let a = choose|a: int| 0 <= a < i && (#[trigger] rest[a]).0 == x;
                        assert(trace[a + 1].0 == x);
                    }
                }
                assert forall|j: int| 0 <= j < k implies more.contains(
                    #[trigger] self.adjacent(rest[i - 1].0)[j],
                ) || visited_before(rest, i, self.adjacent(rest[i - 1].0)[j]) by {
                    assert(seen.contains(near[j]) || visited_before(trace, i + 1, near[j]));
                }
                assert(!visited_before(rest, i, near[k]));
                self.law_dfs_goes_to_an_unvisited_neighbour(deeper, more, rest, i - 1, k);
                assert(rest[i] == trace[i + 1]);
            }
        }
    }
}

} // verus!

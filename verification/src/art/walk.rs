//! What touches every key of an adaptive radix tree.
use crate::art::node::{goes_on, ARTNode, Leaf};
use crate::bytemap::ByteMap;
use crate::bytes::{copy_bytes, has_prefix};
use crate::mvcc::{lemma_places_of, places_of};
use crate::snap::Snapshot;
use crate::txn::{commit_of, saturated, vacuumed, visible_at, Version};
use crate::types::{LogSequenceNumber, ScanBounds, TransactionId};
use vstd::prelude::*;

verus! {

/// What a leaf takes beside its key and newest value, by estimate.
pub const LEAF_OVERHEAD: usize = 80;

/// What an inner node takes beside its prefix, by estimate.
pub const NODE_OVERHEAD: usize = 2096;

/// What can be added up over a tree.
#[derive(Clone, Copy, PartialEq, Eq, Structural, Debug)]
pub enum Measure {
    Leaves,
    Versions,
    Bytes,
}

impl Measure {
    /// What a leaf contributes.
    pub open spec fn of_leaf(self, l: Leaf) -> int {
        match self {
            Measure::Leaves => 1,
            Measure::Versions => l.chain@.len() as int,
            Measure::Bytes => l.key@.len() + l.chain@[0].value.len() + LEAF_OVERHEAD,
        }
    }

    /// What an inner node contributes.
    pub open spec fn of_inner(self, prefix: Seq<u8>) -> int {
        match self {
            Measure::Bytes => prefix.len() + NODE_OVERHEAD,
            _ => 0,
        }
    }

    /// What the leaf that may end at an inner node contributes.
    pub open spec fn of_end(self, end: Option<Leaf>) -> int {
        match end {
            Some(l) => self.of_leaf(l),
            None => 0,
        }
    }

    fn leaf(self, l: &Leaf) -> (r: usize)
        ensures
            r as int == saturated(self.of_leaf(*l)),
    {
        proof {
            l.chain.lemma_view();
        }
        match self {
            Measure::Leaves => 1,
            Measure::Versions => l.chain.version_count(),
            Measure::Bytes => l.key.len().saturating_add(l.chain.value.len()).saturating_add(
                LEAF_OVERHEAD,
            ),
        }
    }
}

impl ARTNode {
    /// The sum of a measure over the node and all below it.
    pub open spec fn total(&self, m: Measure) -> int
        decreases self, 257nat,
    {
        match self {
            ARTNode::Leaf(l) => m.of_leaf(*l),
            ARTNode::Inner { prefix, end, kids } => m.of_inner(prefix@) + m.of_end(*end)
                + self.kids_total(m, 256),
        }
    }

    /// The sum of a measure over the children for the bytes below `n`.
    pub open spec fn kids_total(&self, m: Measure, n: nat) -> int
        decreases self, n,
        via Self::kids_total_decreases
    {
        if n == 0 {
            0
        } else {
            self.kids_total(m, (n - 1) as nat) + (if n <= 256 && self.kid((n - 1) as u8) is Some {
                self.kid((n - 1) as u8)->Some_0.total(m)
            } else {
                0
            })
        }
    }

    #[via_fn]
    proof fn kids_total_decreases(&self, m: Measure, n: nat) {
        self.lemma_kid_decreases((n - 1) as u8);
    }

    /// A sum is not negative.
    pub proof fn lemma_total(&self, m: Measure)
        ensures
            self.total(m) >= 0,
        decreases self, 257nat,
    {
        if self is Inner {
            self.lemma_kids_total(m, 256);
        }
    }

    proof fn lemma_kids_total(&self, m: Measure, n: nat)
        requires
            n <= 256,
        ensures
            self.kids_total(m, n) >= 0,
        decreases self, n,
    {
        if n > 0 {
            self.lemma_kids_total(m, (n - 1) as nat);
            let b = (n - 1) as u8;
            self.lemma_kid_decreases(b);
            if self.kid(b) is Some {
                self.kid(b)->Some_0.lemma_total(m);
            }
        }
    }

    proof fn lemma_same_kids_total(&self, other: &ARTNode, m: Measure, n: nat)
        requires
            n <= 256,
            forall|b: u8| b < n ==> #[trigger] self.kid(b) == other.kid(b),
        ensures
            self.kids_total(m, n) == other.kids_total(m, n),
        decreases n,
    {
        if n > 0 {
            self.lemma_same_kids_total(other, m, (n - 1) as nat);
            assert(self.kid((n - 1) as u8) == other.kid((n - 1) as u8));
        }
    }

    /// The sum of a measure, as far as a machine word holds it.
    pub fn measure(&self, m: Measure, Ghost(path): Ghost<Seq<u8>>) -> (r: usize)
        requires
            self.sound(path),
        ensures
            r as int == saturated(self.total(m)),
        decreases self,
    {
        match self {
            ARTNode::Leaf(l) => m.leaf(l),
            ARTNode::Inner { prefix, end, kids } => {
                let own: usize = match m {
                    Measure::Bytes => prefix.len().saturating_add(NODE_OVERHEAD),
                    _ => 0,
                };
                let ended: usize = match end {
                    Some(l) => m.leaf(l),
                    None => 0,
                };
                let mut sum: usize = own.saturating_add(ended);
                let mut b: usize = 0;
                while b < 256
                    invariant
                        b <= 256,
                        self.sound(path),
                        *self == (ARTNode::Inner { prefix: *prefix, end: *end, kids: *kids }),
                        sum as int == saturated(
                            m.of_inner(prefix@) + m.of_end(*end) + self.kids_total(m, b as nat),
                        ),
                        0 <= m.of_inner(prefix@) + m.of_end(*end) + self.kids_total(m, b as nat),
                    decreases 256 - b,
                {
                    proof {
                        self.lemma_kid_decreases(b as u8);
                        self.lemma_kids_total(m, b as nat);
                    }
                    match kids.find_child(b as u8) {
                        Some(kid) => {
                            assert(self.kid(b as u8) == Some(*kid));
                            let below: usize = kid.measure(m, Ghost(path + prefix@));
                            proof {
                                kid.lemma_total(m);
                            }
                            sum = sum.saturating_add(below);
                        },
                        None => {},
                    }
                    b += 1;
                }
                sum
            },
        }
    }
}

/// What can be done to every chain of a tree.
#[derive(Clone, Copy, PartialEq, Eq, Structural, Debug)]
pub enum LeafChange {
    /// Commits the versions that a transaction left pending.
    Commit(TransactionId, LogSequenceNumber),
    /// Drops versions that no reader from there on sees.
    Vacuum(LogSequenceNumber),
}

impl LeafChange {
    /// The chain after the change.
    pub open spec fn apply(self, vs: Seq<Version>) -> Seq<Version> {
        match self {
            LeafChange::Commit(tx, lsn) => commit_of(vs, tx, lsn),
            LeafChange::Vacuum(min) => vacuumed(vs, min),
        }
    }

    /// The chain after the change, where there is one.
    pub open spec fn apply_to(self, vs: Option<Seq<Version>>) -> Option<Seq<Version>> {
        match vs {
            Some(vs) => Some(self.apply(vs)),
            None => None,
        }
    }

    fn change(self, l: Leaf) -> (r: (Leaf, usize))
        ensures
            r.0.key == l.key,
            r.0.chain@ == self.apply(l.chain@),
            r.1 as int == saturated(l.chain@.len() - r.0.chain@.len()),
            l.chain@.len() >= r.0.chain@.len(),
            l.chain@.len() > 0,
            r.0.chain@[0].value == l.chain@[0].value,
    {
        let key = l.key;
        let mut chain = l.chain;
        proof {
            chain.lemma_view();
        }
        match self {
            LeafChange::Commit(tx, lsn) => {
                chain.commit_of(tx, lsn);
                (Leaf { key, chain }, 0)
            },
            LeafChange::Vacuum(min) => {
                proof {
                    crate::txn::lemma_vacuumed_len(chain@, min);
                }
                let removed: usize = chain.vacuum(min);
                (Leaf { key, chain }, removed)
            },
        }
    }
}

impl ARTNode {
    /// The node is what the other becomes by changing every chain.
    pub open spec fn changed(&self, before: &ARTNode, op: LeafChange, path: Seq<u8>) -> bool {
        &&& self.sound(path)
        &&& forall|k: Seq<u8>| #[trigger]
            self.find(k, path.len() as int) == op.apply_to(before.find(k, path.len() as int))
        &&& forall|b: u8| #[trigger]
            self.begins(path.len() as int, b) == before.begins(path.len() as int, b)
        &&& self.total(Measure::Versions) <= before.total(Measure::Versions)
        &&& self.total(Measure::Bytes) == before.total(Measure::Bytes)
    }

    /// Changes every chain. Returns how many versions went.
    pub fn change_leaves(self, op: LeafChange, Ghost(path): Ghost<Seq<u8>>) -> (r: (ARTNode, usize))
        requires
            self.sound(path),
        ensures
            r.0.changed(&self, op, path),
            r.1 as int == saturated(
                self.total(Measure::Versions) - r.0.total(Measure::Versions),
            ),
        decreases self,
    {
        match self {
            ARTNode::Leaf(l) => {
                let (l2, removed) = op.change(l);
                (ARTNode::Leaf(l2), removed)
            },
            ARTNode::Inner { prefix, end, kids } => {
                let ghost m = Measure::Versions;
                let ghost path2 = path + prefix@;
                let ghost kids0 = kids;
                let (end2, removed_here): (Option<Leaf>, usize) = match end {
                    Some(l) => {
                        let (l2, n) = op.change(l);
                        (Some(l2), n)
                    },
                    None => (None, 0),
                };
                let mut kids = kids;
                let mut removed: usize = removed_here;
                let mut b: usize = 0;
                let ghost mut node = ARTNode::Inner { prefix, end: end2, kids };
                proof {
                    node.lemma_kids_total(m, 0);
                    assert forall|c: u8| #[trigger] node.kid(c) == self.kid(c) by {}
                }
                while b < 256
                    invariant
                        b <= 256,
                        self.sound(path),
                        self is Inner,
                        self->prefix == prefix,
                        self->end == end,
                        self->kids == kids0,
                        path2 == path + prefix@,
                        m == Measure::Versions,
                        kids.wf(),
                        node == (ARTNode::Inner { prefix, end: end2, kids }),
                        forall|c: u8| c >= b ==> #[trigger] node.kid(c) == self.kid(c),
                        forall|c: u8|
                            c < b ==> (#[trigger] node.kid(c) is Some <==> self.kid(c) is Some) && (
                            node.kid(c) is Some ==> node.kid(c)->Some_0.changed(
                                &self.kid(c)->Some_0,
                                op,
                                path2,
                            )),
                        removed as int == saturated(
                            m.of_end(end) - m.of_end(end2) + self.kids_total(m, b as nat)
                                - node.kids_total(m, b as nat),
                        ),
                        0 <= m.of_end(end) - m.of_end(end2),
                        Measure::Bytes.of_end(end) == Measure::Bytes.of_end(end2),
                        node.kids_total(Measure::Bytes, b as nat) == self.kids_total(
                            Measure::Bytes,
                            b as nat,
                        ),
                        node.kids_total(m, b as nat) <= self.kids_total(m, b as nat),
                    decreases 256 - b,
                {
                    let ghost before = node;
                    let ghost kids1 = kids;
                    proof {
                        self.lemma_kid_decreases(b as u8);
                        assert(before.kid(b as u8) == self.kid(b as u8));
                    }
                    let (rest, child) = kids.remove_child(b as u8);
                    kids = rest;
                    match child {
                        Some(t) => {
                            assert(self.kid(b as u8) == Some(t));
                            let (t2, n) = t.change_leaves(op, Ghost(path2));
                            assert(!kids.has(b as u8)) by {
                                assert(rest.has(b as u8) || !rest.has(b as u8));
                            }
                            kids = kids.put(b as u8, t2);
                            removed = removed.saturating_add(n);
                            proof {
                                node = ARTNode::Inner { prefix, end: end2, kids };
                                assert forall|c: u8| #[trigger]
                                    node.kid(c) == (if c == b {
                                        Some(t2)
                                    } else {
                                        before.kid(c)
                                    }) by {
                                    assert(kids.has(c) || !kids.has(c));
                                    assert(rest.has(c) || !rest.has(c));
                                }
                            }
                        },
                        None => {
                            proof {
                                node = ARTNode::Inner { prefix, end: end2, kids };
                                assert forall|c: u8| #[trigger] node.kid(c) == before.kid(c) by {
                                    assert(kids.has(c) || !kids.has(c));
                                }
                            }
                        },
                    }
                    proof {
                        node.lemma_same_kids_total(&before, m, b as nat);
                        node.lemma_same_kids_total(&before, Measure::Bytes, b as nat);
                        assert forall|c: u8| c >= b + 1 implies #[trigger] node.kid(c) == self.kid(
                            c,
                        ) by {
                            assert(before.kid(c) == self.kid(c));
                        }
                        assert forall|c: u8| c < b + 1 implies (#[trigger] node.kid(c) is Some
                            <==> self.kid(c) is Some) && (node.kid(c) is Some ==> node.kid(
                            c,
                        )->Some_0.changed(&self.kid(c)->Some_0, op, path2)) by {
                            if c < b {
                                assert(node.kid(c) == before.kid(c));
                            }
                        }
                    }
                    b += 1;
                }
                let r = ARTNode::Inner { prefix, end: end2, kids };
                proof {
                    let d = path.len() as int;
                    let next = path2.len() as int;
                    assert(r.sound(path)) by {
                        assert forall|c: u8| #[trigger] r.kid(c) is Some implies r.kid(
                            c,
                        )->Some_0.begins(next, c) && r.kid(c)->Some_0.sound(path2) by {
                            assert(self.kid(c)->Some_0.begins(next, c));
                        }
                    }
                    assert forall|k: Seq<u8>| #[trigger]
                        r.find(k, d) == op.apply_to(self.find(k, d)) by {
                        if goes_on(k, d, prefix@) && k.len() != next {
                            let c = k[next];
                            assert(r.kid(c) is Some || r.kid(c) is None);
                            if r.kid(c) is Some {
                                assert(r.kid(c)->Some_0.find(k, next) == op.apply_to(
                                    self.kid(c)->Some_0.find(k, next),
                                ));
                            }
                        }
                    }
                }
                (r, removed)
            },
        }
    }
}

/// What was gathered under a key.
pub open spec fn gathered(m: ByteMap<Vec<u8>>, key: Seq<u8>) -> Option<Seq<u8>> {
    if m@.contains_key(key) {
        Some(m@[key]@)
    } else {
        None
    }
}

/// What a reader at `lsn` sees of a key within the bounds.
pub open spec fn hit(
    found: Option<Seq<Version>>,
    key: Seq<u8>,
    bounds: ScanBounds,
    lsn: LogSequenceNumber,
) -> Option<Seq<u8>> {
    match found {
        Some(vs) if bounds.admits(key) => visible_at(vs, lsn),
        _ => None,
    }
}

impl ARTNode {
    /// A key below a child is found through the parent, and only there.
    proof fn lemma_through(&self, path: Seq<u8>, b: u8, k: Seq<u8>)
        requires
            self.sound(path),
            self is Inner,
        ensures
            ({
                let path2 = path + self->prefix@;
                let d = path.len() as int;
                let next = path2.len() as int;
                &&& self.find(k, d) is Some ==> has_prefix(k, path2)
                &&& self.find(k, d) is Some && k.len() == next ==> k == path2
                &&& self.find(k, d) is Some && k.len() != next && k[next] == b ==> self.kid(b)
                    is Some && self.kid(b)->Some_0.find(k, next) == self.find(k, d)
                &&& self.kid(b) is Some && self.kid(b)->Some_0.find(k, next) is Some ==> k.len()
                    > next && k[next] == b && self.find(k, d) == self.kid(b)->Some_0.find(k, next)
                &&& self->end is Some ==> self.find(path2, d) == Some(self->end->Some_0.chain@)
                &&& self->end is None ==> self.find(path2, d) is None
            }),
    {
        let prefix = self->prefix@;
        let path2 = path + prefix;
        let d = path.len() as int;
        let next = path2.len() as int;
        assert(goes_on(path2, d, prefix)) by {
            assert(path2.subrange(d, next) =~= prefix);
        }
        if self.find(k, d) is Some {
            self.lemma_found(path, k);
            assert(k.take(next) =~= k.take(d) + k.subrange(d, next));
            if k.len() == next {
                assert(k.take(next) =~= k);
            }
        }
        if self.kid(b) is Some {
            let kid = self.kid(b)->Some_0;
            if kid.find(k, next) is Some {
                kid.lemma_found(path2, k);
                assert(kid.begins(next, b));
                assert(k.take(next) == path2);
                assert(k.subrange(d, next) =~= k.take(next).subrange(d, next));
                assert(goes_on(k, d, prefix));
            }
        }
    }

    /// Gathers what a reader sees of the keys within the bounds.
    pub fn collect(
        &self,
        bounds: &ScanBounds,
        snapshot: &Snapshot,
        out: &mut ByteMap<Vec<u8>>,
        Ghost(path): Ghost<Seq<u8>>,
    )
        requires
            self.sound(path),
            old(out).wf(),
            snapshot.active_txns@.len() == 0,
        ensures
            final(out).wf(),
            forall|k: Seq<u8>| #[trigger]
                gathered(*final(out), k) == (match hit(
                    self.find(k, path.len() as int),
                    k,
                    *bounds,
                    snapshot.lsn,
                ) {
                    Some(v) => Some(v),
                    None => gathered(*old(out), k),
                }),
        decreases self,
    {
        match self {
            ARTNode::Leaf(l) => {
                Self::collect_leaf(l, bounds, snapshot, out);
            },
            ARTNode::Inner { prefix, end, kids } => {
                let ghost d = path.len() as int;
                let ghost path2 = path + prefix@;
                let ghost next = path2.len() as int;
                let ghost out0 = *out;
                match end {
                    Some(l) => {
                        Self::collect_leaf(l, bounds, snapshot, out);
                    },
                    None => {},
                }
                proof {
                    assert forall|k: Seq<u8>| #[trigger]
                        gathered(*out, k) == (if hit(
                            self.find(k, d),
                            k,
                            *bounds,
                            snapshot.lsn,
                        ) is Some && (k.len() == next || k[next] < 0) {
                            hit(self.find(k, d), k, *bounds, snapshot.lsn)
                        } else {
                            gathered(out0, k)
                        }) by {
                        self.lemma_through(path, 0, k);
                    }
                }
                let mut b: usize = 0;
                while b < 256
                    invariant
                        b <= 256,
                        self.sound(path),
                        *self == (ARTNode::Inner { prefix: *prefix, end: *end, kids: *kids }),
                        d == path.len(),
                        path2 == path + prefix@,
                        next == path2.len(),
                        out.wf(),
                        snapshot.active_txns@.len() == 0,
                        forall|k: Seq<u8>| #[trigger]
                            gathered(*out, k) == (if hit(
                                self.find(k, d),
                                k,
                                *bounds,
                                snapshot.lsn,
                            ) is Some && (k.len() == next || k[next] < b) {
                                hit(self.find(k, d), k, *bounds, snapshot.lsn)
                            } else {
                                gathered(out0, k)
                            }),
                    decreases 256 - b,
                {
                    let ghost out1 = *out;
                    proof {
                        self.lemma_kid_decreases(b as u8);
                    }
                    match kids.find_child(b as u8) {
                        Some(kid) => {
                            assert(self.kid(b as u8) == Some(*kid));
                            kid.collect(bounds, snapshot, out, Ghost(path2));
                        },
                        None => {
                            assert(self.kid(b as u8) is None);
                        },
                    }
                    proof {
                        assert forall|k: Seq<u8>| #[trigger]
                            gathered(*out, k) == (if hit(
                                self.find(k, d),
                                k,
                                *bounds,
                                snapshot.lsn,
                            ) is Some && (k.len() == next || k[next] < b + 1) {
                                hit(self.find(k, d), k, *bounds, snapshot.lsn)
                            } else {
                                gathered(out0, k)
                            }) by {
                            self.lemma_through(path, b as u8, k);
                            assert(gathered(out1, k) is Some || gathered(out1, k) is None);
                        }
                    }
                    b += 1;
                }
            },
        }
    }

    fn collect_leaf(
        l: &Leaf,
        bounds: &ScanBounds,
        snapshot: &Snapshot,
        out: &mut ByteMap<Vec<u8>>,
    )
        requires
            old(out).wf(),
            snapshot.active_txns@.len() == 0,
        ensures
            final(out).wf(),
            forall|k: Seq<u8>| #[trigger]
                gathered(*final(out), k) == (match hit(
                    if k == l.key@ {
                        Some(l.chain@)
                    } else {
                        None
                    },
                    k,
                    *bounds,
                    snapshot.lsn,
                ) {
                    Some(v) => Some(v),
                    None => gathered(*old(out), k),
                }),
    {
        if bounds.contains(l.key.as_slice()) {
            assert(snapshot.active_txns@ =~= Seq::empty());
            match l.chain.find_visible_version(snapshot) {
                Some(v) => {
                    let value: Vec<u8> = copy_bytes(v);
                    let _ = out.insert(copy_bytes(l.key.as_slice()), value);
                },
                None => {},
            }
        }
    }

    /// The keys of the node.
    pub open spec fn key_set(&self, depth: int) -> Set<Seq<u8>> {
        Set::new(|k: Seq<u8>| self.find(k, depth) is Some)
    }

    spec fn keys_below(&self, path: Seq<u8>, n: int) -> Set<Seq<u8>> {
        Set::new(
            |k: Seq<u8>|
                self.find(k, path.len() as int) is Some && (k.len() == (path + self->prefix@).len()
                    || k[(path + self->prefix@).len() as int] < n),
        )
    }

    /// The tree has as many leaves as keys.
    pub proof fn law_leaves_are_keys(&self, path: Seq<u8>)
        requires
            self.sound(path),
        ensures
            self.key_set(path.len() as int).finite(),
            self.total(Measure::Leaves) == self.key_set(path.len() as int).len(),
        decreases self, 257nat,
    {
        let d = path.len() as int;
        match self {
            ARTNode::Leaf(l) => {
                assert(self.key_set(d) =~= set![l.key@]);
            },
            ARTNode::Inner { prefix, end, kids } => {
                self.lemma_leaves_below(path, 256);
                assert(self.keys_below(path, 256) =~= self.key_set(d));
            },
        }
    }

    proof fn lemma_leaves_below(&self, path: Seq<u8>, n: nat)
        requires
            self.sound(path),
            self is Inner,
            n <= 256,
        ensures
            self.keys_below(path, n as int).finite(),
            self.keys_below(path, n as int).len() == Measure::Leaves.of_end(self->end)
                + self.kids_total(Measure::Leaves, n),
        decreases self, n,
    {
        let m = Measure::Leaves;
        let d = path.len() as int;
        let path2 = path + self->prefix@;
        let next = path2.len() as int;
        if n == 0 {
            assert forall|k: Seq<u8>| self.keys_below(path, 0).contains(k) <==> self->end is Some
                && k == path2 by {
                self.lemma_through(path, 0, k);
            }
            if self->end is Some {
                assert(self.keys_below(path, 0) =~= set![path2]);
            } else {
                assert(self.keys_below(path, 0) =~= Set::empty());
            }
        } else {
            let b = (n - 1) as u8;
            let below = self.keys_below(path, n - 1);
            self.lemma_leaves_below(path, (n - 1) as nat);
            self.lemma_kid_decreases(b);
            if self.kid(b) is Some {
                let kid = self.kid(b)->Some_0;
                kid.law_leaves_are_keys(path2);
                let set = kid.key_set(next);
                assert forall|k: Seq<u8>| self.keys_below(path, n as int).contains(k)
                    <==> below.contains(k) || set.contains(k) by {
                    self.lemma_through(path, b, k);
                }
                assert(self.keys_below(path, n as int) =~= below + set);
                assert(below.disjoint(set)) by {
                    assert forall|k: Seq<u8>| !(below.contains(k) && set.contains(k)) by {
                        self.lemma_through(path, b, k);
                    }
                }
                vstd::set_lib::lemma_set_disjoint_lens(below, set);
            } else {
                assert forall|k: Seq<u8>| self.keys_below(path, n as int).contains(k)
                    <==> below.contains(k) by {
                    self.lemma_through(path, b, k);
                }
                assert(self.keys_below(path, n as int) =~= below);
            }
        }
    }

    /// The places of the versions below the node.
    pub open spec fn version_places(&self, depth: int) -> Set<(Seq<u8>, int)> {
        Set::new(
            |p: (Seq<u8>, int)|
                self.find(p.0, depth) is Some && 0 <= p.1 < self.find(p.0, depth)->Some_0.len(),
        )
    }

    spec fn places_below(&self, path: Seq<u8>, n: int) -> Set<(Seq<u8>, int)> {
        Set::new(
            |p: (Seq<u8>, int)|
                self.version_places(path.len() as int).contains(p) && (p.0.len() == (path
                    + self->prefix@).len() || p.0[(path + self->prefix@).len() as int] < n),
        )
    }

    /// The sum of all versions is the number of their places.
    pub proof fn lemma_versions(&self, path: Seq<u8>)
        requires
            self.sound(path),
        ensures
            self.version_places(path.len() as int).finite(),
            self.total(Measure::Versions) == self.version_places(path.len() as int).len(),
        decreases self, 257nat,
    {
        let d = path.len() as int;
        match self {
            ARTNode::Leaf(l) => {
                lemma_places_of(l.key@, l.chain@.len() as int);
                assert(self.version_places(d) =~= places_of(l.key@, l.chain@.len() as int));
            },
            ARTNode::Inner { prefix, end, kids } => {
                self.lemma_versions_below(path, 256);
                assert(self.places_below(path, 256) =~= self.version_places(d));
            },
        }
    }

    proof fn lemma_versions_below(&self, path: Seq<u8>, n: nat)
        requires
            self.sound(path),
            self is Inner,
            n <= 256,
        ensures
            self.places_below(path, n as int).finite(),
            self.places_below(path, n as int).len() == Measure::Versions.of_end(self->end)
                + self.kids_total(Measure::Versions, n),
        decreases self, n,
    {
        let d = path.len() as int;
        let path2 = path + self->prefix@;
        let next = path2.len() as int;
        if n == 0 {
            let len = match self->end {
                Some(l) => l.chain@.len() as int,
                None => 0,
            };
            lemma_places_of(path2, len);
            assert forall|p: (Seq<u8>, int)| self.places_below(path, 0).contains(p) <==> places_of(
                path2,
                len,
            ).contains(p) by {
                self.lemma_through(path, 0, p.0);
            }
            assert(self.places_below(path, 0) =~= places_of(path2, len));
        } else {
            let b = (n - 1) as u8;
            let below = self.places_below(path, n - 1);
            self.lemma_versions_below(path, (n - 1) as nat);
            self.lemma_kid_decreases(b);
            if self.kid(b) is Some {
                let kid = self.kid(b)->Some_0;
                kid.lemma_versions(path2);
                let set = kid.version_places(next);
                assert forall|p: (Seq<u8>, int)| self.places_below(path, n as int).contains(p)
                    <==> below.contains(p) || set.contains(p) by {
                    self.lemma_through(path, b, p.0);
                }
                assert(self.places_below(path, n as int) =~= below + set);
                assert(below.disjoint(set)) by {
                    assert forall|p: (Seq<u8>, int)| !(below.contains(p) && set.contains(p)) by {
                        self.lemma_through(path, b, p.0);
                    }
                }
                vstd::set_lib::lemma_set_disjoint_lens(below, set);
            } else {
                assert forall|p: (Seq<u8>, int)| self.places_below(path, n as int).contains(p)
                    <==> below.contains(p) by {
                    self.lemma_through(path, b, p.0);
                }
                assert(self.places_below(path, n as int) =~= below);
            }
        }
    }
}

} // verus!

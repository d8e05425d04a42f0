//! The nodes of an adaptive radix tree.
use crate::art::children::Children;
use crate::bytes::{bytes_equal, copy_bytes, has_prefix, sub_bytes};
use crate::txn::{pending, Version, VersionChain};
use crate::types::TransactionId;
use vstd::prelude::*;

verus! {

/// A key with its versions.
#[derive(Debug)]
pub struct Leaf {
    pub key: Vec<u8>,
    pub chain: VersionChain,
}

/// A node: one key, or the branching point of all keys below it.
#[derive(Debug)]
pub enum ARTNode {
    Leaf(Leaf),
    /// All keys below go on with `prefix`. One key may end there; the others part by their next
    /// byte.
    Inner { prefix: Vec<u8>, end: Option<Leaf>, kids: Children<ARTNode> },
}

impl Leaf {
    /// A key with one pending version.
    pub fn new(key: Vec<u8>, value: Vec<u8>, tx_id: TransactionId) -> (r: Self)
        ensures
            r.key == key,
            r.chain@ == seq![pending(value@, tx_id)],
    {
        Leaf { key, chain: VersionChain::new(value, tx_id) }
    }
}

/// The key goes on with `prefix` from position `depth`.
pub open spec fn goes_on(key: Seq<u8>, depth: int, prefix: Seq<u8>) -> bool {
    depth + prefix.len() <= key.len() && key.subrange(depth, depth + prefix.len()) == prefix
}

impl ARTNode {
    /// The child for a byte, where there is one.
    pub open spec fn kid(&self, b: u8) -> Option<ARTNode> {
        match self {
            ARTNode::Leaf(_) => None,
            ARTNode::Inner { prefix, end, kids } => if kids.wf() && kids.has(b) {
                Some(kids.kid(b))
            } else {
                None
            },
        }
    }

    /// A child is smaller than its parent.
    pub proof fn lemma_kid_decreases(&self, b: u8)
        ensures
            self.kid(b) is Some ==> decreases_to!(self => self.kid(b)->Some_0),
    {
        if self.kid(b) is Some {
            if let ARTNode::Inner { prefix, end, kids } = self {
                kids.lemma_kid_decreases(b);
                assert(decreases_to!(self => kids));
            }
        }
    }

    /// What the node knows of a key whose first `depth` bytes led to it.
    pub open spec fn find(&self, key: Seq<u8>, depth: int) -> Option<Seq<Version>>
        decreases self,
        via Self::find_decreases
    {
        match self {
            ARTNode::Leaf(l) => if l.key@ == key {
                Some(l.chain@)
            } else {
                None
            },
            ARTNode::Inner { prefix, end, kids } => {
                let next = depth + prefix@.len();
                if !goes_on(key, depth, prefix@) {
                    None
                } else if key.len() == next {
                    match end {
                        Some(l) if l.key@ == key => Some(l.chain@),
                        _ => None,
                    }
                } else if self.kid(key[next]) is Some {
                    self.kid(key[next])->Some_0.find(key, next)
                } else {
                    None
                }
            },
        }
    }

    #[via_fn]
    proof fn find_decreases(&self, key: Seq<u8>, depth: int) {
        if let ARTNode::Inner { prefix, end, kids } = self {
            let next = depth + prefix@.len();
            self.lemma_kid_decreases(key[next]);
        }
    }

    /// All keys of the node have `b` at position `depth`.
    pub open spec fn begins(&self, depth: int, b: u8) -> bool {
        match self {
            ARTNode::Leaf(l) => l.key@.len() > depth && l.key@[depth] == b,
            ARTNode::Inner { prefix, end, kids } => prefix@.len() > 0 && prefix@[0] == b,
        }
    }

    /// Every key stands where the bytes of `path` and of the prefixes on the way lead.
    pub open spec fn sound(&self, path: Seq<u8>) -> bool
        decreases self,
        via Self::sound_decreases
    {
        match self {
            ARTNode::Leaf(l) => has_prefix(l.key@, path),
            ARTNode::Inner { prefix, end, kids } => {
                &&& kids.wf()
                &&& (end matches Some(l) ==> l.key@ == path + prefix@)
                &&& forall|b: u8| #[trigger]
                    self.kid(b) is Some ==> self.kid(b)->Some_0.begins(
                        (path + prefix@).len() as int,
                        b,
                    ) && self.kid(b)->Some_0.sound(path + prefix@)
            },
        }
    }

    #[via_fn]
    proof fn sound_decreases(&self, path: Seq<u8>) {
        assert forall|b: u8| #[trigger] self.kid(b) is Some implies decreases_to!(
            self => self.kid(b)->Some_0
        ) by {
            self.lemma_kid_decreases(b);
        }
    }

    /// What a sound node knows has the path that leads to the node.
    pub proof fn lemma_found(&self, path: Seq<u8>, key: Seq<u8>)
        requires
            self.sound(path),
            self.find(key, path.len() as int) is Some,
        ensures
            has_prefix(key, path),
            forall|b: u8| #[trigger]
                self.begins(path.len() as int, b) ==> key.len() > path.len() && key[path.len() as int]
                    == b,
        decreases self,
    {
        if let ARTNode::Inner { prefix, end, kids } = self {
            let next = (path + prefix@).len() as int;
            assert(next == path.len() + prefix@.len());
            if key.len() == next {
                assert(key == path + prefix@);
                assert(key.take(path.len() as int) =~= path);
            } else {
                let b = key[next];
                self.lemma_kid_decreases(b);
                self.kid(b)->Some_0.lemma_found(path + prefix@, key);
                assert(key.take(next) == path + prefix@);
                assert(key.take(path.len() as int) =~= key.take(next).take(path.len() as int));
                assert((path + prefix@).take(path.len() as int) =~= path);
            }
            assert(prefix@.len() > 0 ==> key[path.len() as int] == key.subrange(
                path.len() as int,
                next,
            )[0]);
        }
    }
}

/// How many bytes `a` from `i` on and `b` from `j` on have in common.
pub fn common_prefix(a: &[u8], i: usize, b: &[u8], j: usize) -> (r: usize)
    requires
        i <= a@.len(),
        j <= b@.len(),
    ensures
        i + r <= a@.len() <= usize::MAX,
        j + r <= b@.len(),
        a@.subrange(i as int, i + r) == b@.subrange(j as int, j + r),
        i + r == a@.len() || j + r == b@.len() || a@[i + r] != b@[j + r],
{
    let mut n: usize = 0;
    let len_a: usize = a.len();
    let len_b: usize = b.len();
    while i + n < len_a && j + n < len_b && a[i + n] == b[j + n]
        invariant
            i + n <= a@.len(),
            j + n <= b@.len(),
            a@.len() == len_a,
            b@.len() == len_b,
            forall|k: int| 0 <= k < n ==> #[trigger] a@[i + k] == b@[j + k],
        decreases a@.len() - i - n,
    {
        n += 1;
    }
    proof {
        let sa = a@.subrange(i as int, i + n);
        let sb = b@.subrange(j as int, j + n);
        assert forall|k: int| 0 <= k < n implies #[trigger] sa[k] == sb[k] by {
            assert(a@[i + k] == b@[j + k]);
        }
        assert(sa =~= sb);
    }
    n
}

proof fn lemma_goes_on_parts(key: Seq<u8>, depth: int, prefix: Seq<u8>, c: int)
    requires
        0 <= depth,
        0 <= c <= prefix.len(),
    ensures
        goes_on(key, depth, prefix) <==> goes_on(key, depth, prefix.take(c)) && goes_on(
            key,
            depth + c,
            prefix.skip(c),
        ),
        goes_on(key, depth, prefix) && c < prefix.len() ==> key[depth + c] == prefix[c],
{
    let p1 = prefix.take(c);
    let p2 = prefix.skip(c);
    if goes_on(key, depth, prefix) {
        let all = key.subrange(depth, depth + prefix.len());
        assert(key.subrange(depth, depth + c) =~= all.take(c));
        assert(key.subrange(depth + c, depth + c + p2.len()) =~= all.skip(c));
        if c < prefix.len() {
            assert(all[c] == key[depth + c]);
        }
    }
    if goes_on(key, depth, p1) && goes_on(key, depth + c, p2) {
        assert(key.subrange(depth, depth + prefix.len()) =~= key.subrange(depth, depth + c)
            + key.subrange(depth + c, depth + c + p2.len()));
        assert(prefix =~= p1 + p2);
    }
}

impl ARTNode {
    /// The chain of a key.
    pub fn lookup(&self, key: &[u8], depth: usize) -> (r: Option<&VersionChain>)
        requires
            depth <= key@.len(),
            self.sound(key@.take(depth as int)),
        ensures
            r is Some <==> self.find(key@, depth as int) is Some,
            r matches Some(c) ==> self.find(key@, depth as int) == Some(c@),
        decreases self,
    {
        match self {
            ARTNode::Leaf(l) => if bytes_equal(l.key.as_slice(), key) {
                Some(&l.chain)
            } else {
                None
            },
            ARTNode::Inner { prefix, end, kids } => {
                let c: usize = common_prefix(key, depth, prefix.as_slice(), 0);
                proof {
                    assert(prefix@.subrange(0, c as int) =~= prefix@.take(c as int));
                    lemma_goes_on_parts(key@, depth as int, prefix@, c as int);
                    assert(prefix@.take(prefix@.len() as int) =~= prefix@);
                }
                if c < prefix.len() {
                    return None;
                }
                let next: usize = depth + c;
                proof {
                    assert(key@.take(next as int) =~= key@.take(depth as int) + prefix@) by {
                        assert(key@.take(next as int) =~= key@.take(depth as int) + key@.subrange(
                            depth as int,
                            next as int,
                        ));
                    }
                }
                if next == key.len() {
                    assert(key@.take(next as int) =~= key@);
                    match end {
                        Some(l) => Some(&l.chain),
                        None => None,
                    }
                } else {
                    match kids.find_child(key[next]) {
                        Some(kid) => {
                            proof {
                                self.lemma_kid_decreases(key@[next as int]);
                                assert(self.kid(key@[next as int]) == Some(*kid));
                            }
                            kid.lookup(key, next)
                        },
                        None => None,
                    }
                }
            },
        }
    }

    /// The node knows what `before` knows, and `chain` of `key`.
    pub open spec fn knows(
        &self,
        before: &ARTNode,
        key: Seq<u8>,
        chain: Option<Seq<Version>>,
        depth: int,
    ) -> bool {
        forall|k: Seq<u8>| #[trigger]
            self.find(k, depth) == (if k == key {
                chain
            } else {
                before.find(k, depth)
            })
    }

    /// Two leaves with different keys below one new node.
    fn part_leaves(old_leaf: Leaf, new_leaf: Leaf, depth: usize) -> (r: ARTNode)
        requires
            depth <= new_leaf.key@.len(),
            has_prefix(old_leaf.key@, new_leaf.key@.take(depth as int)),
            old_leaf.key@ != new_leaf.key@,
        ensures
            r.sound(new_leaf.key@.take(depth as int)),
            r.knows(
                &ARTNode::Leaf(old_leaf),
                new_leaf.key@,
                Some(new_leaf.chain@),
                depth as int,
            ),
            forall|b: u8|
                old_leaf.key@.len() > depth && old_leaf.key@[depth as int] == b
                    && new_leaf.key@.len() > depth && new_leaf.key@[depth as int] == b
                    ==> #[trigger] r.begins(depth as int, b),
    {
        let ghost path = new_leaf.key@.take(depth as int);
        let ghost a = old_leaf.key@;
        let ghost k0 = new_leaf.key@;
        let ghost old_node = ARTNode::Leaf(old_leaf);
        let ghost new_node = ARTNode::Leaf(new_leaf);
        let c: usize = common_prefix(
            new_leaf.key.as_slice(),
            depth,
            old_leaf.key.as_slice(),
            depth,
        );
        let next: usize = depth + c;
        let prefix: Vec<u8> = sub_bytes(new_leaf.key.as_slice(), depth, next);
        let ghost pv = prefix@;
        let mut end: Option<Leaf> = None;
        let mut kids: Children<ARTNode> = Children::new_node4();
        proof {
            assert(k0.take(next as int) =~= path + pv);
            assert(a.take(next as int) =~= path + pv) by {
                assert(a.take(next as int) =~= a.take(depth as int) + a.subrange(
                    depth as int,
                    next as int,
                ));
            }
            assert(a =~= a.take(a.len() as int));
            assert(k0 =~= k0.take(k0.len() as int));
        }
        if old_leaf.key.len() == next {
            end = Some(old_leaf);
        } else {
            let b: u8 = old_leaf.key[next];
            kids = kids.put(b, ARTNode::Leaf(old_leaf));
        }
        let ghost kids1 = kids;
        if new_leaf.key.len() == next {
            end = Some(new_leaf);
        } else {
            let b: u8 = new_leaf.key[next];
            proof {
                assert(!kids.has(b));
            }
            kids = kids.put(b, ARTNode::Leaf(new_leaf));
        }
        let r = ARTNode::Inner { prefix, end, kids };
        proof {
            assert forall|b: u8| #[trigger] r.kid(b) == (if a.len() > next && a[next as int] == b {
                Some(old_node)
            } else if k0.len() > next && k0[next as int] == b {
                Some(new_node)
            } else {
                None::<ARTNode>
            }) by {
                assert(kids.has(b) || !kids.has(b));
                assert(kids1.has(b) || !kids1.has(b));
            }
            assert((path + pv).len() == next);
            assert(r.sound(path)) by {
                assert forall|b: u8| #[trigger] r.kid(b) is Some implies r.kid(b)->Some_0.begins(
                    (path + pv).len() as int,
                    b,
                ) && r.kid(b)->Some_0.sound(path + pv) by {
                    assert(old_node.sound(path + pv));
                    assert(new_node.sound(path + pv));
                }
            }
            assert forall|k: Seq<u8>| #[trigger]
                r.find(k, depth as int) == (if k == k0 {
                    new_node.find(k, depth as int)
                } else {
                    old_node.find(k, depth as int)
                }) by {
                assert(old_node.find(k, next as int) == old_node.find(k, depth as int));
                assert(new_node.find(k, next as int) == new_node.find(k, depth as int));
                if k.len() > next {
                    assert(r.kid(k[next as int]) is Some || r.kid(k[next as int]) is None);
                }
            }
            if c > 0 {
                assert(pv[0] == k0[depth as int]);
            } else {
                assert(a.len() > depth && k0.len() > depth ==> a[depth as int] != k0[depth as int]);
            }
        }
        r
    }
}

impl ARTNode {
    /// A node whose prefix a new key leaves after `c` bytes, and a leaf for that key, below one
    /// new node.
    fn part_inner(
        prefix: Vec<u8>,
        end: Option<Leaf>,
        kids: Children<ARTNode>,
        new_leaf: Leaf,
        depth: usize,
        c: usize,
    ) -> (r: ARTNode)
        requires
            (ARTNode::Inner { prefix, end, kids }).sound(new_leaf.key@.take(depth as int)),
            c < prefix@.len(),
            depth + c <= new_leaf.key@.len(),
            new_leaf.key@.subrange(depth as int, depth + c) == prefix@.take(c as int),
            depth + c < new_leaf.key@.len() ==> new_leaf.key@[depth + c] != prefix@[c as int],
        ensures
            r.sound(new_leaf.key@.take(depth as int)),
            r.knows(
                &(ARTNode::Inner { prefix, end, kids }),
                new_leaf.key@,
                Some(new_leaf.chain@),
                depth as int,
            ),
            forall|b: u8|
                prefix@[0] == b && new_leaf.key@.len() > depth && new_leaf.key@[depth as int] == b
                    ==> #[trigger] r.begins(depth as int, b),
    {
        let ghost path = new_leaf.key@.take(depth as int);
        let ghost p = prefix@;
        let ghost k0 = new_leaf.key@;
        let ghost before = ARTNode::Inner { prefix, end, kids };
        let ghost new_node = ARTNode::Leaf(new_leaf);
        let new_len: usize = new_leaf.key.len();
        let next: usize = depth + c;
        let old_byte: u8 = prefix[c];
        let shared: Vec<u8> = sub_bytes(prefix.as_slice(), 0, c);
        let rest: Vec<u8> = sub_bytes(prefix.as_slice(), c, prefix.len());
        let ghost pv = shared@;
        proof {
            assert(pv =~= p.take(c as int));
            assert(rest@ =~= p.skip(c as int));
            assert(k0.take(next as int) =~= path + pv) by {
                assert(k0.take(next as int) =~= path + k0.subrange(depth as int, next as int));
            }
            assert(k0 =~= k0.take(k0.len() as int));
            assert((path + pv) + rest@ =~= path + p);
        }
        let old_node = ARTNode::Inner { prefix: rest, end, kids };
        let ghost old_ghost = old_node;
        proof {
            assert forall|b: u8| #[trigger] old_node.kid(b) == before.kid(b) by {}
            assert((path + p).len() == ((path + pv) + rest@).len());
            assert(old_node.sound(path + pv)) by {
                assert forall|b: u8| #[trigger] old_node.kid(b) is Some implies old_node.kid(
                    b,
                )->Some_0.begins(((path + pv) + rest@).len() as int, b) && old_node.kid(
                    b,
                )->Some_0.sound((path + pv) + rest@) by {
                    assert(before.kid(b) is Some);
                }
            }
        }
        let mut new_end: Option<Leaf> = None;
        let mut new_kids: Children<ARTNode> = Children::new_node4();
        new_kids = new_kids.put(old_byte, old_node);
        let ghost kids1 = new_kids;
        if new_len == next {
            new_end = Some(new_leaf);
        } else {
            let b: u8 = new_leaf.key[next];
            assert(!new_kids.has(b));
            new_kids = new_kids.put(b, ARTNode::Leaf(new_leaf));
        }
        let r = ARTNode::Inner { prefix: shared, end: new_end, kids: new_kids };
        proof {
            assert forall|b: u8| #[trigger] r.kid(b) == (if p[c as int] == b {
                Some(old_ghost)
            } else if k0.len() > next && k0[next as int] == b {
                Some(new_node)
            } else {
                None::<ARTNode>
            }) by {
                assert(new_kids.has(b) || !new_kids.has(b));
                assert(kids1.has(b) || !kids1.has(b));
            }
            assert((path + pv).len() == next);
            assert(r.sound(path)) by {
                assert forall|b: u8| #[trigger] r.kid(b) is Some implies r.kid(b)->Some_0.begins(
                    (path + pv).len() as int,
                    b,
                ) && r.kid(b)->Some_0.sound(path + pv) by {
                    assert(rest@[0] == p[c as int]);
                    assert(new_node.sound(path + pv));
                }
            }
            assert forall|k: Seq<u8>| #[trigger]
                r.find(k, depth as int) == (if k == k0 {
                    Some(new_leaf.chain@)
                } else {
                    before.find(k, depth as int)
                }) by {
                lemma_goes_on_parts(k, depth as int, p, c as int);
                assert(new_node.find(k, next as int) == new_node.find(k, depth as int));
                let full = depth + p.len();
                assert(next + rest@.len() == full);
                if k.len() > next {
                    assert(r.kid(k[next as int]) is Some || r.kid(k[next as int]) is None);
                }
                if k != k0 {
                    if goes_on(k, depth as int, p) {
                        assert(r.find(k, depth as int) == old_ghost.find(k, next as int));
                        if k.len() > full {
                            assert(old_ghost.kid(k[full as int]) == before.kid(k[full as int]));
                        }
                    }
                }
            }
            if c > 0 {
                assert(pv[0] == p[0]);
            } else {
                assert(next == depth);
            }
        }
        r
    }

    /// Puts a version under a key, in front of the versions that the key has.
    pub fn insert(self, key: &[u8], value: Vec<u8>, tx_id: TransactionId, depth: usize) -> (r:
        ARTNode)
        requires
            depth <= key@.len(),
            self.sound(key@.take(depth as int)),
        ensures
            r.sound(key@.take(depth as int)),
            r.knows(
                &self,
                key@,
                Some(
                    seq![pending(value@, tx_id)] + (match self.find(key@, depth as int) {
                        Some(vs) => vs,
                        None => Seq::empty(),
                    }),
                ),
                depth as int,
            ),
            forall|b: u8| #[trigger]
                self.begins(depth as int, b) && key@.len() > depth && key@[depth as int] == b
                    ==> r.begins(depth as int, b),
        decreases self,
    {
        let ghost path = key@.take(depth as int);
        let ghost v = pending(value@, tx_id);
        assert(seq![v] + Seq::<Version>::empty() =~= seq![v]);
        match self {
            ARTNode::Leaf(l) => {
                if bytes_equal(l.key.as_slice(), key) {
                    ARTNode::Leaf(Leaf { key: l.key, chain: l.chain.prepend(value, tx_id) })
                } else {
                    let r = Self::part_leaves(
                        l,
                        Leaf::new(copy_bytes(key), value, tx_id),
                        depth,
                    );
                    assert(self.find(key@, depth as int) is None);
                    r
                }
            },
            ARTNode::Inner { prefix, end, kids } => {
                let c: usize = common_prefix(key, depth, prefix.as_slice(), 0);
                proof {
                    assert(prefix@.subrange(0, c as int) =~= prefix@.take(c as int));
                    lemma_goes_on_parts(key@, depth as int, prefix@, c as int);
                    assert(prefix@.take(prefix@.len() as int) =~= prefix@);
                }
                if c < prefix.len() {
                    let r = Self::part_inner(
                        prefix,
                        end,
                        kids,
                        Leaf::new(copy_bytes(key), value, tx_id),
                        depth,
                        c,
                    );
                    assert(self.find(key@, depth as int) is None);
                    return r;
                }
                let next: usize = depth + c;
                proof {
                    assert(key@.take(next as int) =~= path + prefix@) by {
                        assert(key@.take(next as int) =~= path + key@.subrange(
                            depth as int,
                            next as int,
                        ));
                    }
                    assert(goes_on(key@, depth as int, prefix@));
                }
                if next == key.len() {
                    proof {
                        assert(key@.take(next as int) =~= key@);
                    }
                    let leaf = match end {
                        Some(l) => Leaf { key: l.key, chain: l.chain.prepend(value, tx_id) },
                        None => Leaf::new(copy_bytes(key), value, tx_id),
                    };
                    let r = ARTNode::Inner { prefix, end: Some(leaf), kids };
                    proof {
                        assert forall|b: u8| #[trigger] r.kid(b) == self.kid(b) by {}
                        assert(r.sound(path)) by {
                            assert forall|b: u8| #[trigger] r.kid(b) is Some implies r.kid(
                                b,
                            )->Some_0.begins((path + prefix@).len() as int, b) && r.kid(
                                b,
                            )->Some_0.sound(path + prefix@) by {
                                assert(self.kid(b) is Some);
                            }
                        }
                        assert forall|k: Seq<u8>| #[trigger]
                            r.find(k, depth as int) == (if k == key@ {
                                Some(leaf.chain@)
                            } else {
                                self.find(k, depth as int)
                            }) by {
                            if goes_on(k, depth as int, prefix@) {
                                if k.len() == next {
                                } else {
                                    assert(r.kid(k[next as int]) == self.kid(k[next as int]));
                                }
                            }
                        }
                    }
                    return r;
                }
                let b: u8 = key[next];
                let (rest, child) = kids.remove_child(b);
                proof {
                    self.lemma_kid_decreases(b);
                    assert(rest.has(b) || !rest.has(b));
                }
                let child2: ARTNode = match child {
                    Some(t) => {
                        assert(self.kid(b) == Some(t));
                        t.insert(key, value, tx_id, next)
                    },
                    None => {
                        assert(self.kid(b) is None);
                        ARTNode::Leaf(Leaf::new(copy_bytes(key), value, tx_id))
                    },
                };
                let kids2 = rest.put(b, child2);
                let r = ARTNode::Inner { prefix, end, kids: kids2 };
                proof {
                    assert forall|x: u8| #[trigger] r.kid(x) == (if x == b {
                        Some(child2)
                    } else {
                        self.kid(x)
                    }) by {
                        assert(kids2.has(x) || !kids2.has(x));
                        assert(rest.has(x) || !rest.has(x));
                    }
                    self.lemma_replaced(&r, b, path);
                    assert forall|k: Seq<u8>| #[trigger]
                        r.find(k, depth as int) == (if k == key@ {
                            child2.find(k, next as int)
                        } else {
                            self.find(k, depth as int)
                        }) by {
                        if goes_on(k, depth as int, prefix@) && k.len() != next {
                            assert(r.kid(k[next as int]) is Some || r.kid(k[next as int]) is None);
                            if k[next as int] == b && k != key@ {
                                assert(r.find(k, depth as int) == child2.find(k, next as int));
                            }
                        }
                    }
                    assert(child2.find(key@, next as int) == r.find(key@, depth as int));
                }
                r
            },
        }
    }

    /// A sound node with one child replaced by a sound one is sound.
    proof fn lemma_replaced(&self, after: &ARTNode, b: u8, path: Seq<u8>)
        requires
            self.sound(path),
            self is Inner,
            after is Inner,
            after->prefix == self->prefix,
            after->end matches Some(l) ==> l.key@ == path + self->prefix@,
            after->kids.wf(),
            after.kid(b) matches Some(t) ==> t.begins((path + self->prefix@).len() as int, b)
                && t.sound(path + self->prefix@),
            forall|x: u8| x != b ==> #[trigger] after.kid(x) == self.kid(x),
        ensures
            after.sound(path),
    {
        let p = self->prefix@;
        assert forall|x: u8| #[trigger] after.kid(x) is Some implies after.kid(x)->Some_0.begins(
            (path + p).len() as int,
            x,
        ) && after.kid(x)->Some_0.sound(path + p) by {
            if x != b {
                assert(self.kid(x) is Some);
            }
        }
    }
}

impl ARTNode {
    /// Takes a key out. Nothing is left where the key was the only one.
    pub fn delete(self, key: &[u8], depth: usize) -> (r: (Option<ARTNode>, bool))
        requires
            depth <= key@.len(),
            self.sound(key@.take(depth as int)),
        ensures
            r.1 == (self.find(key@, depth as int) is Some),
            r.0 matches Some(n) ==> n.sound(key@.take(depth as int)) && n.knows(
                &self,
                key@,
                None,
                depth as int,
            ) && (forall|b: u8| #[trigger]
                self.begins(depth as int, b) && key@.len() > depth && key@[depth as int] == b
                    ==> n.begins(depth as int, b)),
            r.0 is None ==> forall|k: Seq<u8>| #[trigger]
                self.find(k, depth as int) is Some ==> k == key@,
        decreases self,
    {
        let ghost path = key@.take(depth as int);
        match self {
            ARTNode::Leaf(l) => {
                if bytes_equal(l.key.as_slice(), key) {
                    (None, true)
                } else {
                    (Some(ARTNode::Leaf(l)), false)
                }
            },
            ARTNode::Inner { prefix, end, kids } => {
                let c: usize = common_prefix(key, depth, prefix.as_slice(), 0);
                proof {
                    assert(prefix@.subrange(0, c as int) =~= prefix@.take(c as int));
                    lemma_goes_on_parts(key@, depth as int, prefix@, c as int);
                    assert(prefix@.take(prefix@.len() as int) =~= prefix@);
                }
                if c < prefix.len() {
                    return (Some(ARTNode::Inner { prefix, end, kids }), false);
                }
                let next: usize = depth + c;
                proof {
                    assert(key@.take(next as int) =~= path + prefix@) by {
                        assert(key@.take(next as int) =~= path + key@.subrange(
                            depth as int,
                            next as int,
                        ));
                    }
                    assert(goes_on(key@, depth as int, prefix@));
                }
                if next == key.len() {
                    let found: bool = end.is_some();
                    proof {
                        assert(key@.take(next as int) =~= key@);
                        kids.lemma_size();
                        assert forall|k: Seq<u8>| #[trigger]
                            self.find(k, depth as int) is Some && k != key@ implies kids.size()
                            != 0 by {
                            assert(kids.has(k[next as int]));
                        }
                    }
                    if kids.count() == 0 {
                        return (None, found);
                    }
                    let r = ARTNode::Inner { prefix, end: None, kids };
                    proof {
                        assert forall|b: u8| #[trigger] r.kid(b) == self.kid(b) by {}
                        self.lemma_replaced(&r, 0, path);
                        assert forall|k: Seq<u8>| #[trigger]
                            r.find(k, depth as int) == (if k == key@ {
                                None
                            } else {
                                self.find(k, depth as int)
                            }) by {
                            if goes_on(k, depth as int, prefix@) && k.len() != next {
                                assert(r.kid(k[next as int]) == self.kid(k[next as int]));
                            }
                        }
                    }
                    return (Some(r), found);
                }
                let b: u8 = key[next];
                let (rest, child) = kids.remove_child(b);
                proof {
                    self.lemma_kid_decreases(b);
                    assert(rest.has(b) || !rest.has(b));
                }
                let (left, found): (Option<ARTNode>, bool) = match child {
                    Some(t) => {
                        assert(self.kid(b) == Some(t));
                        t.delete(key, next)
                    },
                    None => {
                        assert(self.kid(b) is None);
                        (None, false)
                    },
                };
                let kids2: Children<ARTNode> = match left {
                    Some(t) => rest.put(b, t),
                    None => rest,
                };
                let ghost r = ARTNode::Inner { prefix, end, kids: kids2 };
                proof {
                    assert forall|x: u8| #[trigger] r.kid(x) == (if x == b {
                        left
                    } else {
                        self.kid(x)
                    }) by {
                        assert(kids2.has(x) || !kids2.has(x));
                        assert(rest.has(x) || !rest.has(x));
                    }
                    self.lemma_replaced(&r, b, path);
                    assert forall|k: Seq<u8>| #[trigger]
                        r.find(k, depth as int) == (if k == key@ {
                            None
                        } else {
                            self.find(k, depth as int)
                        }) by {
                        if goes_on(k, depth as int, prefix@) && k.len() != next {
                            assert(r.kid(k[next as int]) is Some || r.kid(k[next as int]) is None);
                            if k[next as int] == b && self.kid(b) is Some {
                                let t = self.kid(b)->Some_0;
                                assert(t.find(k, next as int) is Some || t.find(k, next as int)
                                    is None);
                                if let Some(n) = left {
                                    assert(r.find(k, depth as int) == n.find(k, next as int));
                                }
                            }
                        }
                    }
                    kids2.lemma_size();
                }
                if kids2.count() == 0 {
                    proof {
                        assert forall|k: Seq<u8>| #[trigger]
                            self.find(k, depth as int) is Some && k != key@ implies end
                            == Some(end->Some_0) && end->Some_0.key@ == k by {
                            assert(r.find(k, depth as int) is Some);
                            if k.len() != next {
                                assert(kids2.has(k[next as int]));
                            }
                        }
                    }
                    match end {
                        None => (None, found),
                        Some(l) => {
                            let leaf = ARTNode::Leaf(l);
                            proof {
                                let e = path + prefix@;
                                assert(e.take(path.len() as int) =~= path);
                                assert(e.len() == next);
                                assert(goes_on(e, depth as int, prefix@)) by {
                                    assert(e.subrange(depth as int, next as int) =~= prefix@);
                                }
                                assert(self.find(e, depth as int) == Some(l.chain@));
                                assert forall|k: Seq<u8>| #[trigger]
                                    leaf.find(k, depth as int) == (if k == key@ {
                                        None
                                    } else {
                                        self.find(k, depth as int)
                                    }) by {
                                    assert(r.find(k, depth as int) is Some || r.find(
                                        k,
                                        depth as int,
                                    ) is None);
                                }
                                assert(prefix@.len() > 0 ==> e[depth as int] == prefix@[0]);
                            }
                            (Some(leaf), found)
                        },
                    }
                } else if found {
                    let kids3 = kids2.shrink();
                    let r2 = ARTNode::Inner { prefix, end, kids: kids3 };
                    proof {
                        assert forall|x: u8| #[trigger] r2.kid(x) == r.kid(x) by {
                            assert(kids3.has(x) || !kids3.has(x));
                        }
                        r.lemma_replaced(&r2, 0, path);
                        assert forall|k: Seq<u8>| #[trigger]
                            r2.find(k, depth as int) == (if k == key@ {
                                None
                            } else {
                                self.find(k, depth as int)
                            }) by {
                            assert(r.find(k, depth as int) is Some || r.find(k, depth as int)
                                is None);
                            if goes_on(k, depth as int, prefix@) && k.len() != next {
                                assert(r2.kid(k[next as int]) == r.kid(k[next as int]));
                            }
                        }
                    }
                    (Some(r2), found)
                } else {
                    (Some(ARTNode::Inner { prefix, end, kids: kids2 }), found)
                }
            },
        }
    }
}

} // verus!

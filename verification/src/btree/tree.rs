//! Trees of pages: what makes them well-formed, and what they hold.
use crate::btree::node::Node;
use crate::bytemap::{ascending, lemma_rank, lemma_rank_parts, rank};
use crate::bytes::{
    lemma_lex_asymmetric, lemma_lex_irreflexive, lemma_lex_total, lemma_lex_transitive, lex_le,
    lex_lt,
};
use crate::txn::Version;
use vstd::prelude::*;

verus! {

/// The nodes by page.
pub type Nodes = Map<u64, Node>;

/// The keys never descend.
pub open spec fn nondecreasing(keys: Seq<Seq<u8>>) -> bool {
    forall|i: int, j: int|
        0 <= i < j < keys.len() ==> lex_le(#[trigger] keys[i], #[trigger] keys[j])
}

/// The number of separators that are not after `key`: the child where `key` belongs.
pub open spec fn upper(keys: Seq<Seq<u8>>, key: Seq<u8>) -> int
    decreases keys.len(),
{
    if keys.len() == 0 {
        0
    } else if lex_le(keys.last(), key) {
        keys.len() as int
    } else {
        upper(keys.drop_last(), key)
    }
}

/// What a leaf holds of `key`.
pub open spec fn leaf_lookup(
    keys: Seq<Seq<u8>>,
    chains: Seq<Seq<Version>>,
    key: Seq<u8>,
) -> Option<Seq<Version>> {
    let r = rank(keys, key);
    if 0 <= r < keys.len() && keys[r] == key {
        Some(chains[r])
    } else {
        None
    }
}

/// `key` is not before `lo` and is before `hi`.
pub open spec fn in_range(key: Seq<u8>, lo: Option<Seq<u8>>, hi: Option<Seq<u8>>) -> bool {
    &&& lo matches Some(l) ==> lex_le(l, key)
    &&& hi matches Some(h) ==> lex_lt(key, h)
}

/// `key` is neither before `lo` nor after `hi`.
pub open spec fn between(key: Seq<u8>, lo: Option<Seq<u8>>, hi: Option<Seq<u8>>) -> bool {
    &&& lo matches Some(l) ==> lex_le(l, key)
    &&& hi matches Some(h) ==> lex_le(key, h)
}

/// Where the range of child `i` starts.
pub open spec fn low(keys: Seq<Seq<u8>>, lo: Option<Seq<u8>>, i: int) -> Option<Seq<u8>> {
    if i == 0 {
        lo
    } else {
        Some(keys[i - 1])
    }
}

/// Where the range of child `i` ends.
pub open spec fn high(keys: Seq<Seq<u8>>, hi: Option<Seq<u8>>, i: int) -> Option<Seq<u8>> {
    if i == keys.len() {
        hi
    } else {
        Some(keys[i])
    }
}

/// Page `p` belongs to the tree of height `h` under page `id`.
pub open spec fn owns(n: Nodes, id: u64, h: nat, p: u64) -> bool
    decreases h,
{
    p == id || (h > 0 && n[id] is Internal && exists|i: int|
        0 <= i < n[id]->kids.len() && owns(n, #[trigger] n[id]->kids[i], (h - 1) as nat, p))
}

/// The first leaf of the tree of height `h` under page `id`.
pub open spec fn first_leaf(n: Nodes, id: u64, h: nat) -> u64
    decreases h,
{
    if h == 0 || !(n[id] is Internal) {
        id
    } else {
        first_leaf(n, n[id]->kids[0], (h - 1) as nat)
    }
}

/// The leaf that follows child `i`.
#[verifier::opaque]
pub open spec fn kid_after(n: Nodes, kids: Seq<u64>, h: nat, after: u64, i: int) -> u64 {
    if i + 1 < kids.len() {
        first_leaf(n, kids[i + 1], h)
    } else {
        after
    }
}

proof fn lemma_kid_after(n: Nodes, kids: Seq<u64>, h: nat, after: u64, i: int)
    ensures
        kid_after(n, kids, h, after, i) == (if i + 1 < kids.len() {
            first_leaf(n, kids[i + 1], h)
        } else {
            after
        }),
{
    reveal(kid_after);
}

/// What the tree of height `h` under page `id` holds of `key`.
pub open spec fn lookup(n: Nodes, id: u64, h: nat, key: Seq<u8>) -> Option<Seq<Version>>
    decreases h,
{
    match n[id] {
        Node::Leaf { version, keys, chains, next } => leaf_lookup(keys, chains, key),
        Node::Internal { version, keys, kids } => if h == 0 {
            None
        } else {
            lookup(n, kids[upper(keys, key)], (h - 1) as nat, key)
        },
    }
}

/// Page `id` is the root of a tree of height `h` whose keys lie in a range and whose last leaf is
/// followed by `after`: the keys of a leaf ascend, separators part the children, no page occurs
/// twice, and each leaf is followed by the next.
pub open spec fn tree(
    n: Nodes,
    id: u64,
    h: nat,
    lo: Option<Seq<u8>>,
    hi: Option<Seq<u8>>,
    after: u64,
) -> bool
    decreases h,
{
    &&& id != 0
    &&& n.contains_key(id)
    &&& match n[id] {
        Node::Leaf { version, keys, chains, next } => {
            &&& h == 0
            &&& keys.len() == chains.len()
            &&& ascending(keys)
            &&& forall|i: int| 0 <= i < keys.len() ==> in_range(#[trigger] keys[i], lo, hi)
            &&& forall|i: int| 0 <= i < chains.len() ==> (#[trigger] chains[i]).len() > 0
            &&& next == after
        },
        Node::Internal { version, keys, kids } => {
            &&& h > 0
            &&& kids.len() == keys.len() + 1
            &&& nondecreasing(keys)
            &&& forall|i: int| 0 <= i < keys.len() ==> between(#[trigger] keys[i], lo, hi)
            &&& forall|i: int|
                0 <= i < kids.len() ==> tree(
                    n,
                    #[trigger] kids[i],
                    (h - 1) as nat,
                    low(keys, lo, i),
                    high(keys, hi, i),
                    kid_after(n, kids, (h - 1) as nat, after, i),
                )
            &&& forall|i: int|
                0 <= i < kids.len() ==> !owns(n, #[trigger] kids[i], (h - 1) as nat, id)
            &&& forall|i: int, j: int, p: u64|
                0 <= i < j < kids.len() ==> !(#[trigger] owns(n, kids[i], (h - 1) as nat, p)
                    && #[trigger] owns(n, kids[j], (h - 1) as nat, p))
        },
    }
}

/// The separators up to the child of `key` are not after it, and the others are.
pub proof fn lemma_upper_parts(keys: Seq<Seq<u8>>, key: Seq<u8>)
    requires
        nondecreasing(keys),
    ensures
        0 <= upper(keys, key) <= keys.len(),
        forall|i: int| 0 <= i < upper(keys, key) ==> lex_le(#[trigger] keys[i], key),
        forall|i: int| upper(keys, key) <= i < keys.len() ==> lex_lt(key, #[trigger] keys[i]),
    decreases keys.len(),
{
    if keys.len() > 0 {
        let last = keys.last();
        if lex_le(last, key) {
            assert forall|i: int| 0 <= i < keys.len() implies lex_le(#[trigger] keys[i], key) by {
                if i < keys.len() - 1 {
                    assert(lex_le(keys[i], keys[keys.len() - 1]));
                    if keys[i] != last && last != key {
                        lemma_lex_transitive(keys[i], last, key);
                    }
                }
            }
        } else {
            lemma_lex_total(last, key);
            lemma_upper_parts(keys.drop_last(), key);
            assert forall|i: int| 0 <= i < upper(keys, key) implies lex_le(
                #[trigger] keys[i],
                key,
            ) by {
                assert(keys.drop_last()[i] == keys[i]);
            }
            assert forall|i: int| upper(keys, key) <= i < keys.len() implies lex_lt(
                key,
                #[trigger] keys[i],
            ) by {
                if i < keys.len() - 1 {
                    assert(keys.drop_last()[i] == keys[i]);
                }
            }
        }
    }
}

/// A position that parts the separators so is the child of `key`.
pub proof fn lemma_upper(keys: Seq<Seq<u8>>, key: Seq<u8>, p: int)
    requires
        0 <= p <= keys.len(),
        forall|i: int| 0 <= i < p ==> lex_le(#[trigger] keys[i], key),
        forall|i: int| p <= i < keys.len() ==> lex_lt(key, #[trigger] keys[i]),
    ensures
        upper(keys, key) == p,
    decreases keys.len(),
{
    if keys.len() > p {
        lemma_lex_asymmetric(key, keys.last());
        lemma_upper(keys.drop_last(), key, p);
    }
}

/// A key that is in the range of a node is in the range of the child where it belongs.
pub proof fn lemma_route_in_range(
    keys: Seq<Seq<u8>>,
    key: Seq<u8>,
    lo: Option<Seq<u8>>,
    hi: Option<Seq<u8>>,
)
    requires
        nondecreasing(keys),
        in_range(key, lo, hi),
    ensures
        0 <= upper(keys, key) <= keys.len(),
        in_range(key, low(keys, lo, upper(keys, key)), high(keys, hi, upper(keys, key))),
{
    lemma_upper_parts(keys, key);
    let i = upper(keys, key);
    if i > 0 {
        assert(lex_le(keys[i - 1], key));
    }
    if i < keys.len() {
        assert(lex_lt(key, keys[i]));
    }
}

/// What stands at a position of a leaf is what the leaf holds of that key.
pub proof fn lemma_leaf_entry(keys: Seq<Seq<u8>>, chains: Seq<Seq<Version>>, i: int)
    requires
        ascending(keys),
        0 <= i < keys.len(),
    ensures
        rank(keys, keys[i]) == i,
        leaf_lookup(keys, chains, keys[i]) == Some(chains[i]),
{
    let key = keys[i];
    assert forall|j: int| 0 <= j < i implies lex_lt(#[trigger] keys[j], key) by {
        assert(lex_lt(keys[j], keys[i]));
    }
    assert forall|j: int| i <= j < keys.len() implies !lex_lt(#[trigger] keys[j], key) by {
        if j > i {
            assert(lex_lt(keys[i], keys[j]));
            lemma_lex_asymmetric(keys[i], keys[j]);
        } else {
            lemma_lex_irreflexive(key);
        }
    }
    lemma_rank(keys, key, i);
}

/// A leaf holds of a key what stands at some position, or nothing.
pub proof fn lemma_leaf_found(keys: Seq<Seq<u8>>, chains: Seq<Seq<Version>>, key: Seq<u8>) -> (i:
    int)
    requires
        ascending(keys),
        leaf_lookup(keys, chains, key) is Some,
    ensures
        0 <= i < keys.len(),
        keys[i] == key,
        leaf_lookup(keys, chains, key) == Some(chains[i]),
        rank(keys, key) == i,
{
    rank(keys, key)
}

/// The node of page `p` is kept.
pub open spec fn kept(n: Nodes, n2: Nodes, p: u64) -> bool {
    n2.contains_key(p) && n2[p] == n[p]
}

/// The two trees under page `id` have the same pages, hold the same and start at the same leaf.
#[verifier::opaque]
pub open spec fn same_tree(n: Nodes, n2: Nodes, id: u64, h: nat) -> bool {
    &&& forall|p: u64| #[trigger] owns(n2, id, h, p) == owns(n, id, h, p)
    &&& forall|k: Seq<u8>| #[trigger] lookup(n2, id, h, k) == lookup(n, id, h, k)
    &&& first_leaf(n2, id, h) == first_leaf(n, id, h)
}

proof fn lemma_same_page(n: Nodes, n2: Nodes, id: u64, h: nat, p: u64)
    requires
        same_tree(n, n2, id, h),
    ensures
        owns(n2, id, h, p) == owns(n, id, h, p),
{
    reveal(same_tree);
}

proof fn lemma_same_lookup(n: Nodes, n2: Nodes, id: u64, h: nat, k: Seq<u8>)
    requires
        same_tree(n, n2, id, h),
    ensures
        lookup(n2, id, h, k) == lookup(n, id, h, k),
{
    reveal(same_tree);
}

proof fn lemma_same_first(n: Nodes, n2: Nodes, id: u64, h: nat)
    requires
        same_tree(n, n2, id, h),
    ensures
        first_leaf(n2, id, h) == first_leaf(n, id, h),
{
    reveal(same_tree);
}

/// A tree is what its pages make it: where they are kept, all is kept.
pub proof fn lemma_frame(
    n: Nodes,
    n2: Nodes,
    id: u64,
    h: nat,
    lo: Option<Seq<u8>>,
    hi: Option<Seq<u8>>,
    after: u64,
)
    requires
        tree(n, id, h, lo, hi, after),
        forall|p: u64| #[trigger] owns(n, id, h, p) ==> kept(n, n2, p),
    ensures
        tree(n2, id, h, lo, hi, after),
        forall|p: u64| #[trigger] owns(n2, id, h, p) == owns(n, id, h, p),
        forall|k: Seq<u8>| #[trigger] lookup(n2, id, h, k) == lookup(n, id, h, k),
        first_leaf(n2, id, h) == first_leaf(n, id, h),
    decreases h,
{
    assert(owns(n, id, h, id));
    if h > 0 {
        let keys = n[id]->Internal_keys;
        let kids = n[id]->kids;
        let g = (h - 1) as nat;
        assert forall|i: int| 0 <= i < kids.len() implies {
            &&& tree(
                n2,
                #[trigger] kids[i],
                g,
                low(keys, lo, i),
                high(keys, hi, i),
                kid_after(n, kids, g, after, i),
            )
            &&& forall|p: u64| #[trigger] owns(n2, kids[i], g, p) == owns(n, kids[i], g, p)
            &&& forall|k: Seq<u8>| #[trigger] lookup(n2, kids[i], g, k) == lookup(n, kids[i], g, k)
            &&& first_leaf(n2, kids[i], g) == first_leaf(n, kids[i], g)
        } by {
            assert forall|p: u64| #[trigger] owns(n, kids[i], g, p) implies kept(n, n2, p) by {
                assert(owns(n, id, h, p));
            }
            lemma_frame(
                n,
                n2,
                kids[i],
                g,
                low(keys, lo, i),
                high(keys, hi, i),
                kid_after(n, kids, g, after, i),
            );
        }
        assert forall|i: int| 0 <= i < kids.len() implies kid_after(n2, kids, g, after, i)
            == #[trigger] kid_after(n, kids, g, after, i) by {
            lemma_kid_after(n, kids, g, after, i);
            lemma_kid_after(n2, kids, g, after, i);
            if i + 1 < kids.len() {
                assert(first_leaf(n2, kids[i + 1], g) == first_leaf(n, kids[i + 1], g));
            }
        }
        assert forall|p: u64| #[trigger] owns(n2, id, h, p) == owns(n, id, h, p) by {
            if owns(n2, id, h, p) && p != id {
                let i = choose|i: int| 0 <= i < kids.len() && owns(n2, #[trigger] kids[i], g, p);
                assert(owns(n, kids[i], g, p));
            }
            if owns(n, id, h, p) && p != id {
                let i = choose|i: int| 0 <= i < kids.len() && owns(n, #[trigger] kids[i], g, p);
                assert(owns(n2, kids[i], g, p));
            }
        }
        assert forall|k: Seq<u8>| #[trigger] lookup(n2, id, h, k) == lookup(n, id, h, k) by {
            lemma_upper_parts(keys, k);
            let i = upper(keys, k);
            assert(lookup(n2, kids[i], g, k) == lookup(n, kids[i], g, k));
        }
        assert(first_leaf(n2, kids[0], g) == first_leaf(n, kids[0], g));
        assert forall|i: int| 0 <= i < kids.len() implies tree(
            n2,
            #[trigger] kids[i],
            g,
            low(keys, lo, i),
            high(keys, hi, i),
            kid_after(n2, kids, g, after, i),
        ) by {
            assert(kid_after(n2, kids, g, after, i) == kid_after(n, kids, g, after, i));
        }
        assert forall|i: int| 0 <= i < kids.len() implies !owns(n2, #[trigger] kids[i], g, id) by {
            assert(owns(n2, kids[i], g, id) == owns(n, kids[i], g, id));
        }
        assert forall|i: int, j: int, p: u64| 0 <= i < j < kids.len() implies !(#[trigger] owns(
            n2,
            kids[i],
            g,
            p,
        ) && #[trigger] owns(n2, kids[j], g, p)) by {
            assert(owns(n2, kids[i], g, p) == owns(n, kids[i], g, p));
            assert(owns(n2, kids[j], g, p) == owns(n, kids[j], g, p));
        }
    }
}

/// The pages of a tree hold nodes.
pub proof fn lemma_owned_is_node(
    n: Nodes,
    id: u64,
    h: nat,
    lo: Option<Seq<u8>>,
    hi: Option<Seq<u8>>,
    after: u64,
    p: u64,
)
    requires
        tree(n, id, h, lo, hi, after),
        owns(n, id, h, p),
    ensures
        n.contains_key(p),
        p != 0,
    decreases h,
{
    if p != id {
        let keys = n[id]->Internal_keys;
        let kids = n[id]->kids;
        let g = (h - 1) as nat;
        let i = choose|i: int| 0 <= i < kids.len() && owns(n, #[trigger] kids[i], g, p);
        lemma_owned_is_node(
            n,
            kids[i],
            g,
            low(keys, lo, i),
            high(keys, hi, i),
            kid_after(n, kids, g, after, i),
            p,
        );
    }
}

/// Every page of the tree under `id2` in `n2` was a page of the tree under `id` in `n`, or is new.
pub open spec fn grown_from(n: Nodes, id: u64, n2: Nodes, id2: u64, h: nat) -> bool {
    forall|p: u64| #[trigger] owns(n2, id2, h, p) ==> owns(n, id, h, p) || !n.contains_key(p)
}

/// Every node outside the tree under `id` is kept.
pub open spec fn kept_outside(n: Nodes, n2: Nodes, id: u64, h: nat) -> bool {
    forall|p: u64| n.contains_key(p) && !owns(n, id, h, p) ==> #[trigger] kept(n, n2, p)
}

/// The two trees under `a` and `b` share no page.
pub open spec fn apart(n: Nodes, a: u64, b: u64, h: nat) -> bool {
    forall|p: u64| !(#[trigger] owns(n, a, h, p) && #[trigger] owns(n, b, h, p))
}

/// What is in other children is kept when one child changes.
proof fn lemma_siblings_kept(
    n: Nodes,
    n2: Nodes,
    id: u64,
    h: nat,
    lo: Option<Seq<u8>>,
    hi: Option<Seq<u8>>,
    after: u64,
    i: int,
    j: int,
)
    requires
        tree(n, id, h, lo, hi, after),
        h > 0,
        0 <= i < n[id]->kids.len(),
        0 <= j < n[id]->kids.len(),
        i != j,
        forall|p: u64|
            n.contains_key(p) && !owns(n, n[id]->kids[i], (h - 1) as nat, p) && p != id
                ==> #[trigger] kept(n, n2, p),
    ensures
        tree(
            n2,
            n[id]->kids[j],
            (h - 1) as nat,
            low(n[id]->Internal_keys, lo, j),
            high(n[id]->Internal_keys, hi, j),
            kid_after(n, n[id]->kids, (h - 1) as nat, after, j),
        ),
        same_tree(n, n2, n[id]->kids[j], (h - 1) as nat),
{
    let g = (h - 1) as nat;
    let keys = n[id]->Internal_keys;
    let kids = n[id]->kids;
    let kid = kids[j];
    assert(tree(
        n,
        kid,
        g,
        low(keys, lo, j),
        high(keys, hi, j),
        kid_after(n, kids, g, after, j),
    ));
    assert forall|p: u64| #[trigger] owns(n, kid, g, p) implies kept(n, n2, p) by {
        lemma_sibling_pages(n, id, h, lo, hi, after, i, j, p);
    }
    lemma_frame(
        n,
        n2,
        kid,
        g,
        low(keys, lo, j),
        high(keys, hi, j),
        kid_after(n, kids, g, after, j),
    );
    reveal(same_tree);
}

/// A page of one child is a node, is no page of another child and is not the parent.
proof fn lemma_sibling_pages(
    n: Nodes,
    id: u64,
    h: nat,
    lo: Option<Seq<u8>>,
    hi: Option<Seq<u8>>,
    after: u64,
    i: int,
    j: int,
    p: u64,
)
    requires
        tree(n, id, h, lo, hi, after),
        h > 0,
        0 <= i < n[id]->kids.len(),
        0 <= j < n[id]->kids.len(),
        i != j,
        owns(n, n[id]->kids[j], (h - 1) as nat, p),
    ensures
        n.contains_key(p),
        !owns(n, n[id]->kids[i], (h - 1) as nat, p),
        p != id,
{
    let g = (h - 1) as nat;
    let keys = n[id]->Internal_keys;
    let kids = n[id]->kids;
    lemma_owned_is_node(
        n,
        kids[j],
        g,
        low(keys, lo, j),
        high(keys, hi, j),
        kid_after(n, kids, g, after, j),
        p,
    );
    assert(!owns(n, kids[j], g, id));
    if i < j {
        assert(!(owns(n, kids[i], g, p) && owns(n, kids[j], g, p)));
    } else {
        assert(!(owns(n, kids[j], g, p) && owns(n, kids[i], g, p)));
    }
}

/// What other children hold is kept when one child changes.
pub proof fn lemma_siblings_hold(
    n: Nodes,
    n2: Nodes,
    id: u64,
    h: nat,
    lo: Option<Seq<u8>>,
    hi: Option<Seq<u8>>,
    after: u64,
    i: int,
    k: Seq<u8>,
)
    requires
        tree(n, id, h, lo, hi, after),
        h > 0,
        0 <= i < n[id]->kids.len(),
        kept(n, n2, id),
        kept_outside(n, n2, n[id]->kids[i], (h - 1) as nat),
    ensures
        lookup(n2, id, h, k) == (if upper(n[id]->Internal_keys, k) == i {
            lookup(n2, n[id]->kids[i], (h - 1) as nat, k)
        } else {
            lookup(n, id, h, k)
        }),
{
    let keys = n[id]->Internal_keys;
    let j = upper(keys, k);
    lemma_upper_parts(keys, k);
    if j != i {
        lemma_siblings_kept(n, n2, id, h, lo, hi, after, i, j);
        lemma_same_lookup(n, n2, n[id]->kids[j], (h - 1) as nat, k);
    }
}

/// A tree holds nothing of a key behind its range.
pub proof fn lemma_nothing_behind(
    n: Nodes,
    id: u64,
    h: nat,
    lo: Option<Seq<u8>>,
    m: Seq<u8>,
    after: u64,
    k: Seq<u8>,
)
    requires
        tree(n, id, h, lo, Some(m), after),
        !lex_lt(k, m),
    ensures
        lookup(n, id, h, k) is None,
    decreases h,
{
    match n[id] {
        Node::Leaf { version, keys, chains, next } => {
            let r = rank(keys, k);
            if 0 <= r < keys.len() && keys[r] == k {
                assert(in_range(keys[r], lo, Some(m)));
            }
        },
        Node::Internal { version, keys, kids } => {
            let g = (h - 1) as nat;
            let last = keys.len() as int;
            assert forall|i: int| 0 <= i < keys.len() implies lex_le(#[trigger] keys[i], k) by {
                assert(between(keys[i], lo, Some(m)));
                lemma_lex_total(k, m);
                if keys[i] != m && m != k {
                    lemma_lex_transitive(keys[i], m, k);
                }
            }
            lemma_upper(keys, k, last);
            assert(tree(
                n,
                kids[last],
                g,
                low(keys, lo, last),
                high(keys, Some(m), last),
                kid_after(n, kids, g, after, last),
            ));
            lemma_nothing_behind(
                n,
                kids[last],
                g,
                low(keys, lo, last),
                m,
                kid_after(n, kids, g, after, last),
                k,
            );
        },
    }
}

/// A tree stays one when one of its children is replaced by a tree of the same range.
#[verifier::rlimit(30)]
pub proof fn lemma_kid_changed(
    n: Nodes,
    n2: Nodes,
    id: u64,
    h: nat,
    lo: Option<Seq<u8>>,
    hi: Option<Seq<u8>>,
    after: u64,
    i: int,
)
    requires
        tree(n, id, h, lo, hi, after),
        h > 0,
        0 <= i < n[id]->kids.len(),
        n2.contains_key(id),
        n2[id] == n[id],
        ({
            let g = (h - 1) as nat;
            let kid = n[id]->kids[i];
            &&& tree(
                n2,
                kid,
                g,
                low(n[id]->Internal_keys, lo, i),
                high(n[id]->Internal_keys, hi, i),
                kid_after(n, n[id]->kids, g, after, i),
            )
            &&& first_leaf(n2, kid, g) == first_leaf(n, kid, g)
            &&& grown_from(n, kid, n2, kid, g)
            &&& kept_outside(n, n2, kid, g)
        }),
    ensures
        tree(n2, id, h, lo, hi, after),
        grown_from(n, id, n2, id, h),
        kept_outside(n, n2, id, h),
        first_leaf(n2, id, h) == first_leaf(n, id, h),
        forall|k: Seq<u8>| #[trigger]
            lookup(n2, id, h, k) == (if upper(n[id]->Internal_keys, k) == i {
                lookup(n2, n[id]->kids[i], (h - 1) as nat, k)
            } else {
                lookup(n, id, h, k)
            }),
{
    let g = (h - 1) as nat;
    let keys = n[id]->Internal_keys;
    let kids = n[id]->kids;
    assert forall|j: int| 0 <= j < kids.len() && j != i implies {
        &&& tree(
            n2,
            #[trigger] kids[j],
            g,
            low(keys, lo, j),
            high(keys, hi, j),
            kid_after(n, kids, g, after, j),
        )
        &&& same_tree(n, n2, kids[j], g)
    } by {
        lemma_siblings_kept(n, n2, id, h, lo, hi, after, i, j);
    }
    assert forall|j: int| 0 <= j < kids.len() implies tree(
        n2,
        #[trigger] kids[j],
        g,
        low(keys, lo, j),
        high(keys, hi, j),
        kid_after(n2, kids, g, after, j),
    ) by {
        lemma_kid_after(n, kids, g, after, j);
        lemma_kid_after(n2, kids, g, after, j);
        if j + 1 < kids.len() && j + 1 != i {
            lemma_same_first(n, n2, kids[j + 1], g);
        }
        assert(kid_after(n2, kids, g, after, j) == kid_after(n, kids, g, after, j));
    }
    assert forall|j: int| 0 <= j < kids.len() implies !owns(n2, #[trigger] kids[j], g, id) by {
        assert(!owns(n, kids[j], g, id));
        if j == i {
            if owns(n2, kids[i], g, id) {
                assert(owns(n, kids[i], g, id) || !n.contains_key(id));
            }
        } else {
            lemma_same_page(n, n2, kids[j], g, id);
        }
    }
    assert forall|a: int, b: int, p: u64| 0 <= a < b < kids.len() implies !(#[trigger] owns(
        n2,
        kids[a],
        g,
        p,
    ) && #[trigger] owns(n2, kids[b], g, p)) by {
        if owns(n2, kids[a], g, p) && owns(n2, kids[b], g, p) {
            if a == i {
                lemma_same_page(n, n2, kids[b], g, p);
                lemma_sibling_pages(n, id, h, lo, hi, after, i, b, p);
                assert(owns(n, kids[i], g, p) || !n.contains_key(p));
            } else if b == i {
                lemma_same_page(n, n2, kids[a], g, p);
                lemma_sibling_pages(n, id, h, lo, hi, after, i, a, p);
                assert(owns(n, kids[i], g, p) || !n.contains_key(p));
            } else {
                lemma_same_page(n, n2, kids[a], g, p);
                lemma_same_page(n, n2, kids[b], g, p);
                lemma_sibling_pages(n, id, h, lo, hi, after, a, b, p);
            }
        }
    }
    assert(tree(n2, id, h, lo, hi, after));
    assert forall|p: u64| #[trigger] owns(n2, id, h, p) implies owns(n, id, h, p)
        || !n.contains_key(p) by {
        if p != id {
            let j = choose|j: int| 0 <= j < kids.len() && owns(n2, #[trigger] kids[j], g, p);
            if j == i {
                assert(owns(n, kids[i], g, p) || !n.contains_key(p));
            } else {
                lemma_same_page(n, n2, kids[j], g, p);
            }
        }
    }
    assert forall|p: u64| n.contains_key(p) && !owns(n, id, h, p) implies #[trigger] kept(
        n,
        n2,
        p,
    ) by {
        assert(!owns(n, kids[i], g, p));
    }
    if i != 0 {
        lemma_same_first(n, n2, kids[0], g);
    }
    assert forall|k: Seq<u8>| #[trigger] lookup(n2, id, h, k) == (if upper(keys, k) == i {
        lookup(n2, kids[i], g, k)
    } else {
        lookup(n, id, h, k)
    }) by {
        lemma_upper_parts(keys, k);
        let j = upper(keys, k);
        if j != i {
            lemma_same_lookup(n, n2, kids[j], g, k);
        }
    }
}

/// Where a key belongs once child `i` was split at `m`.
pub proof fn lemma_upper_insert(keys: Seq<Seq<u8>>, i: int, m: Seq<u8>, k: Seq<u8>)
    requires
        nondecreasing(keys),
        0 <= i <= keys.len(),
        i > 0 ==> lex_le(keys[i - 1], m),
        i < keys.len() ==> lex_le(m, keys[i]),
    ensures
        nondecreasing(keys.insert(i, m)),
        upper(keys.insert(i, m), k) == (if upper(keys, k) < i {
            upper(keys, k)
        } else if upper(keys, k) > i {
            upper(keys, k) + 1
        } else if lex_lt(k, m) {
            i
        } else {
            i + 1
        }),
{
    let keys2 = keys.insert(i, m);
    assert forall|a: int, b: int| 0 <= a < b < keys2.len() implies lex_le(
        #[trigger] keys2[a],
        #[trigger] keys2[b],
    ) by {
        if a == i {
            assert(lex_le(m, keys[i]));
            if b - 1 > i {
                assert(lex_le(keys[i], keys[b - 1]));
                if m != keys[i] && keys[i] != keys[b - 1] {
                    lemma_lex_transitive(m, keys[i], keys[b - 1]);
                }
            }
        } else if b == i {
            assert(lex_le(keys[i - 1], m));
            if a < i - 1 {
                assert(lex_le(keys[a], keys[i - 1]));
                if keys[a] != keys[i - 1] && keys[i - 1] != m {
                    lemma_lex_transitive(keys[a], keys[i - 1], m);
                }
            }
        } else {
            let x = if a < i { a } else { a - 1 };
            let y = if b < i { b } else { b - 1 };
            assert(lex_le(keys[x], keys[y]));
        }
    }
    lemma_upper_parts(keys, k);
    let u = upper(keys, k);
    let v = if u < i {
        u
    } else if u > i {
        u + 1
    } else if lex_lt(k, m) {
        i
    } else {
        i + 1
    };
    lemma_lex_total(k, m);
    assert forall|a: int| 0 <= a < v implies lex_le(#[trigger] keys2[a], k) by {
        if a == i {
            if u > i {
                assert(lex_le(keys[i], k));
                if m != keys[i] && keys[i] != k {
                    lemma_lex_transitive(m, keys[i], k);
                }
            }
        } else {
            let x = if a < i { a } else { a - 1 };
            assert(lex_le(keys[x], k));
        }
    }
    assert forall|a: int| v <= a < keys2.len() implies lex_lt(k, #[trigger] keys2[a]) by {
        if a == i {
            if u < i {
                assert(lex_lt(k, keys[i - 1]));
                if m != keys[i - 1] {
                    lemma_lex_transitive(k, keys[i - 1], m);
                }
            }
        } else {
            let x = if a < i { a } else { a - 1 };
            assert(lex_lt(k, keys[x]));
        }
    }
    lemma_upper(keys2, k, v);
}

/// A tree stays one when one of its children is replaced by two trees that part its range.
#[verifier::rlimit(40)]
pub proof fn lemma_kid_split(
    n: Nodes,
    n2: Nodes,
    id: u64,
    h: nat,
    lo: Option<Seq<u8>>,
    hi: Option<Seq<u8>>,
    after: u64,
    i: int,
    m: Seq<u8>,
    r: u64,
)
    requires
        tree(n, id, h, lo, hi, after),
        h > 0,
        0 <= i < n[id]->kids.len(),
        n2.contains_key(id),
        n2[id] is Internal,
        n2[id]->Internal_keys == n[id]->Internal_keys.insert(i, m),
        n2[id]->kids == n[id]->kids.insert(i + 1, r),
        between(m, low(n[id]->Internal_keys, lo, i), high(n[id]->Internal_keys, hi, i)),
        ({
            let g = (h - 1) as nat;
            let kid = n[id]->kids[i];
            &&& tree(
                n2,
                kid,
                g,
                low(n[id]->Internal_keys, lo, i),
                Some(m),
                first_leaf(n2, r, g),
            )
            &&& tree(
                n2,
                r,
                g,
                Some(m),
                high(n[id]->Internal_keys, hi, i),
                kid_after(n, n[id]->kids, g, after, i),
            )
            &&& first_leaf(n2, kid, g) == first_leaf(n, kid, g)
            &&& grown_from(n, kid, n2, kid, g)
            &&& grown_from(n, kid, n2, r, g)
            &&& apart(n2, kid, r, g)
            &&& forall|p: u64|
                n.contains_key(p) && !owns(n, kid, g, p) && p != id ==> #[trigger] kept(n, n2, p)
        }),
    ensures
        tree(n2, id, h, lo, hi, after),
        grown_from(n, id, n2, id, h),
        kept_outside(n, n2, id, h),
        first_leaf(n2, id, h) == first_leaf(n, id, h),
        forall|k: Seq<u8>| #[trigger]
            lookup(n2, id, h, k) == (if upper(n[id]->Internal_keys, k) == i {
                if lex_lt(k, m) {
                    lookup(n2, n[id]->kids[i], (h - 1) as nat, k)
                } else {
                    lookup(n2, r, (h - 1) as nat, k)
                }
            } else {
                lookup(n, id, h, k)
            }),
{
    let g = (h - 1) as nat;
    let keys = n[id]->Internal_keys;
    let kids = n[id]->kids;
    let keys2 = n2[id]->Internal_keys;
    let kids2 = n2[id]->kids;
    lemma_upper_insert(keys, i, m, m);
    assert forall|j: int| 0 <= j < kids.len() && j != i implies {
        &&& tree(
            n2,
            #[trigger] kids[j],
            g,
            low(keys, lo, j),
            high(keys, hi, j),
            kid_after(n, kids, g, after, j),
        )
        &&& same_tree(n, n2, kids[j], g)
    } by {
        lemma_siblings_kept(n, n2, id, h, lo, hi, after, i, j);
    }
    assert forall|j: int| 0 <= j < kids2.len() implies tree(
        n2,
        #[trigger] kids2[j],
        g,
        low(keys2, lo, j),
        high(keys2, hi, j),
        kid_after(n2, kids2, g, after, j),
    ) by {
        lemma_kid_after(n2, kids2, g, after, j);
        if j < i {
            lemma_kid_after(n, kids, g, after, j);
            assert(kids2[j] == kids[j]);
            assert(kids2[j + 1] == kids[j + 1]);
            if j + 1 != i {
                lemma_same_first(n, n2, kids[j + 1], g);
            }
            assert(low(keys2, lo, j) == low(keys, lo, j));
            assert(high(keys2, hi, j) == high(keys, hi, j));
        } else if j == i {
            assert(kids2[i] == kids[i]);
            assert(kids2[i + 1] == r);
            assert(low(keys2, lo, j) == low(keys, lo, j));
            assert(high(keys2, hi, j) == Some(m));
        } else if j == i + 1 {
            lemma_kid_after(n, kids, g, after, i);
            assert(kids2[i + 1] == r);
            assert(low(keys2, lo, j) == Some(m));
            assert(high(keys2, hi, j) == high(keys, hi, i));
            if j + 1 < kids2.len() {
                assert(kids2[j + 1] == kids[i + 1]);
                lemma_same_first(n, n2, kids[i + 1], g);
            }
        } else {
            lemma_kid_after(n, kids, g, after, j - 1);
            assert(kids2[j] == kids[j - 1]);
            assert(low(keys2, lo, j) == low(keys, lo, j - 1));
            assert(high(keys2, hi, j) == high(keys, hi, j - 1));
            if j + 1 < kids2.len() {
                assert(kids2[j + 1] == kids[j]);
                lemma_same_first(n, n2, kids[j], g);
            }
        }
    }
    assert forall|j: int| 0 <= j < keys2.len() implies between(#[trigger] keys2[j], lo, hi) by {
        lemma_between_insert(keys, lo, hi, i, m, j);
    }
    assert forall|j: int| 0 <= j < kids2.len() implies !owns(n2, #[trigger] kids2[j], g, id) by {
        if j == i || j == i + 1 {
            assert(!owns(n, kids[i], g, id));
            assert(kids2[j] == kids[i] || kids2[j] == r);
            if owns(n2, kids2[j], g, id) {
                assert(owns(n, kids[i], g, id) || !n.contains_key(id));
            }
        } else {
            let x = if j < i { j } else { j - 1 };
            assert(kids2[j] == kids[x]);
            assert(!owns(n, kids[x], g, id));
            lemma_same_page(n, n2, kids[x], g, id);
        }
    }
    assert forall|a: int, b: int, p: u64| 0 <= a < b < kids2.len() implies !(#[trigger] owns(
        n2,
        kids2[a],
        g,
        p,
    ) && #[trigger] owns(n2, kids2[b], g, p)) by {
        if owns(n2, kids2[a], g, p) && owns(n2, kids2[b], g, p) {
            let a_new = a == i || a == i + 1;
            let b_new = b == i || b == i + 1;
            let x = if a < i { a } else { a - 1 };
            let y = if b < i { b } else { b - 1 };
            if a_new && b_new {
                assert(kids2[a] == kids[i] && kids2[b] == r);
            } else if a_new {
                assert(kids2[a] == kids[i] || kids2[a] == r);
                assert(kids2[b] == kids[y]);
                lemma_same_page(n, n2, kids[y], g, p);
                lemma_sibling_pages(n, id, h, lo, hi, after, i, y, p);
                assert(owns(n, kids[i], g, p) || !n.contains_key(p));
            } else if b_new {
                assert(kids2[b] == kids[i] || kids2[b] == r);
                assert(kids2[a] == kids[x]);
                lemma_same_page(n, n2, kids[x], g, p);
                lemma_sibling_pages(n, id, h, lo, hi, after, i, x, p);
                assert(owns(n, kids[i], g, p) || !n.contains_key(p));
            } else {
                assert(kids2[a] == kids[x]);
                assert(kids2[b] == kids[y]);
                lemma_same_page(n, n2, kids[x], g, p);
                lemma_same_page(n, n2, kids[y], g, p);
                lemma_sibling_pages(n, id, h, lo, hi, after, x, y, p);
            }
        }
    }
    assert(tree(n2, id, h, lo, hi, after));
    assert forall|p: u64| #[trigger] owns(n2, id, h, p) implies owns(n, id, h, p)
        || !n.contains_key(p) by {
        if p != id {
            let j = choose|j: int| 0 <= j < kids2.len() && owns(n2, #[trigger] kids2[j], g, p);
            if j == i || j == i + 1 {
                assert(kids2[j] == kids[i] || kids2[j] == r);
                assert(owns(n, kids[i], g, p) || !n.contains_key(p));
            } else {
                let x = if j < i { j } else { j - 1 };
                assert(kids2[j] == kids[x]);
                lemma_same_page(n, n2, kids[x], g, p);
            }
        }
    }
    assert forall|p: u64| n.contains_key(p) && !owns(n, id, h, p) implies #[trigger] kept(
        n,
        n2,
        p,
    ) by {
        assert(!owns(n, kids[i], g, p));
    }
    assert(kids2[0] == kids[0]);
    if i != 0 {
        lemma_same_first(n, n2, kids[0], g);
    }
    assert forall|k: Seq<u8>| #[trigger] lookup(n2, id, h, k) == (if upper(keys, k) == i {
        if lex_lt(k, m) {
            lookup(n2, kids[i], g, k)
        } else {
            lookup(n2, r, g, k)
        }
    } else {
        lookup(n, id, h, k)
    }) by {
        lemma_upper_parts(keys, k);
        lemma_upper_insert(keys, i, m, k);
        let j = upper(keys, k);
        if j != i {
            lemma_same_lookup(n, n2, kids[j], g, k);
        }
        assert(kids2[upper(keys2, k)] == (if j < i {
            kids[j]
        } else if j > i {
            kids[j]
        } else if lex_lt(k, m) {
            kids[i]
        } else {
            r
        }));
    }
}

proof fn lemma_between_insert(
    keys: Seq<Seq<u8>>,
    lo: Option<Seq<u8>>,
    hi: Option<Seq<u8>>,
    i: int,
    m: Seq<u8>,
    j: int,
)
    requires
        0 <= i <= keys.len(),
        0 <= j <= keys.len(),
        forall|a: int| 0 <= a < keys.len() ==> between(#[trigger] keys[a], lo, hi),
        between(m, low(keys, lo, i), high(keys, hi, i)),
    ensures
        between(keys.insert(i, m)[j], lo, hi),
{
    if j == i {
        if i > 0 {
            assert(between(keys[i - 1], lo, hi));
            if let Some(l) = lo {
                if l != keys[i - 1] && keys[i - 1] != m {
                    lemma_lex_transitive(l, keys[i - 1], m);
                }
            }
        }
        if i < keys.len() {
            assert(between(keys[i], lo, hi));
            if let Some(u) = hi {
                if m != keys[i] && keys[i] != u {
                    lemma_lex_transitive(m, keys[i], u);
                }
            }
        }
    } else {
        let x = if j < i { j } else { j - 1 };
        assert(between(keys[x], lo, hi));
    }
}

/// Two halves of a leaf are two leaves that part its range.
pub proof fn lemma_split_leaf(
    n: Nodes,
    n2: Nodes,
    id: u64,
    r: u64,
    lo: Option<Seq<u8>>,
    hi: Option<Seq<u8>>,
    after: u64,
    mid: int,
)
    requires
        tree(n, id, 0, lo, hi, after),
        0 <= mid < n[id].keys().len(),
        r != 0,
        !n.contains_key(r),
        n2.contains_key(id),
        n2.contains_key(r),
        n2[id] is Leaf,
        n2[id]->Leaf_keys == n[id]->Leaf_keys.take(mid),
        n2[id]->chains == n[id]->chains.take(mid),
        n2[id]->next == r,
        n2[r] is Leaf,
        n2[r]->Leaf_keys == n[id]->Leaf_keys.skip(mid),
        n2[r]->chains == n[id]->chains.skip(mid),
        n2[r]->next == after,
    ensures
        ({
            let m = n[id]->Leaf_keys[mid];
            &&& in_range(m, lo, hi)
            &&& tree(n2, id, 0, lo, Some(m), r)
            &&& tree(n2, r, 0, Some(m), hi, after)
            &&& apart(n2, id, r, 0)
            &&& forall|k: Seq<u8>|
                lex_lt(k, m) ==> #[trigger] lookup(n2, id, 0, k) == lookup(n, id, 0, k)
            &&& forall|k: Seq<u8>|
                !lex_lt(k, m) ==> #[trigger] lookup(n2, r, 0, k) == lookup(n, id, 0, k)
        }),
{
    let keys = n[id]->Leaf_keys;
    let chains = n[id]->chains;
    let m = keys[mid];
    let lk = keys.take(mid);
    let rk = keys.skip(mid);
    assert(in_range(m, lo, hi));
    assert forall|a: int, b: int| 0 <= a < b < lk.len() implies lex_lt(
        #[trigger] lk[a],
        #[trigger] lk[b],
    ) by {
        assert(lex_lt(keys[a], keys[b]));
    }
    assert forall|a: int, b: int| 0 <= a < b < rk.len() implies lex_lt(
        #[trigger] rk[a],
        #[trigger] rk[b],
    ) by {
        assert(lex_lt(keys[mid + a], keys[mid + b]));
    }
    assert forall|a: int| 0 <= a < lk.len() implies in_range(#[trigger] lk[a], lo, Some(m)) by {
        assert(in_range(keys[a], lo, hi));
        assert(lex_lt(keys[a], keys[mid]));
    }
    assert forall|a: int| 0 <= a < rk.len() implies in_range(#[trigger] rk[a], Some(m), hi) by {
        assert(in_range(keys[mid + a], lo, hi));
        if a > 0 {
            assert(lex_lt(keys[mid], keys[mid + a]));
        }
    }
    assert forall|a: int| 0 <= a < mid implies (#[trigger] chains.take(mid)[a]).len() > 0 by {
        assert(chains[a].len() > 0);
    }
    assert forall|a: int| 0 <= a < chains.len() - mid implies (#[trigger] chains.skip(mid)[a]).len()
        > 0 by {
        assert(chains[mid + a].len() > 0);
    }
    assert forall|k: Seq<u8>| lex_lt(k, m) implies #[trigger] lookup(n2, id, 0, k) == lookup(
        n,
        id,
        0,
        k,
    ) by {
        lemma_lex_asymmetric(k, m);
        if leaf_lookup(keys, chains, k) is Some {
            let a = lemma_leaf_found(keys, chains, k);
            if a > mid {
                assert(lex_lt(keys[mid], keys[a]));
            }
            lemma_leaf_entry(lk, chains.take(mid), a);
        } else if leaf_lookup(lk, chains.take(mid), k) is Some {
            let a = lemma_leaf_found(lk, chains.take(mid), k);
            lemma_leaf_entry(keys, chains, a);
        }
    }
    assert forall|k: Seq<u8>| !lex_lt(k, m) implies #[trigger] lookup(n2, r, 0, k) == lookup(
        n,
        id,
        0,
        k,
    ) by {
        if leaf_lookup(keys, chains, k) is Some {
            let a = lemma_leaf_found(keys, chains, k);
            if a < mid {
                assert(lex_lt(keys[a], keys[mid]));
            }
            lemma_leaf_entry(rk, chains.skip(mid), a - mid);
        } else if leaf_lookup(rk, chains.skip(mid), k) is Some {
            let a = lemma_leaf_found(rk, chains.skip(mid), k);
            lemma_leaf_entry(keys, chains, mid + a);
        }
    }
}

/// Where a key belongs in the halves of an internal node.
proof fn lemma_upper_halves(keys: Seq<Seq<u8>>, mid: int, k: Seq<u8>)
    requires
        nondecreasing(keys),
        0 <= mid < keys.len(),
    ensures
        nondecreasing(keys.take(mid)),
        nondecreasing(keys.skip(mid + 1)),
        0 <= upper(keys, k) <= keys.len(),
        lex_lt(k, keys[mid]) ==> upper(keys.take(mid), k) == upper(keys, k) && upper(keys, k)
            <= mid,
        !lex_lt(k, keys[mid]) ==> upper(keys.skip(mid + 1), k) == upper(keys, k) - (mid + 1)
            && upper(keys, k) > mid,
{
    let lk = keys.take(mid);
    let rk = keys.skip(mid + 1);
    assert forall|a: int, b: int| 0 <= a < b < lk.len() implies lex_le(
        #[trigger] lk[a],
        #[trigger] lk[b],
    ) by {
        assert(lex_le(keys[a], keys[b]));
    }
    assert forall|a: int, b: int| 0 <= a < b < rk.len() implies lex_le(
        #[trigger] rk[a],
        #[trigger] rk[b],
    ) by {
        assert(lex_le(keys[mid + 1 + a], keys[mid + 1 + b]));
    }
    lemma_upper_parts(keys, k);
    let u = upper(keys, k);
    if lex_lt(k, keys[mid]) {
        lemma_lex_asymmetric(k, keys[mid]);
        if u > mid {
            assert(lex_le(keys[mid], k));
        }
        assert forall|a: int| 0 <= a < u implies lex_le(#[trigger] lk[a], k) by {
            assert(lex_le(keys[a], k));
        }
        assert forall|a: int| u <= a < lk.len() implies lex_lt(k, #[trigger] lk[a]) by {
            assert(lex_lt(k, keys[a]));
        }
        lemma_upper(lk, k, u);
    } else {
        if u <= mid {
            assert(lex_lt(k, keys[mid]));
        }
        let v = u - (mid + 1);
        assert forall|a: int| 0 <= a < v implies lex_le(#[trigger] rk[a], k) by {
            assert(lex_le(keys[mid + 1 + a], k));
        }
        assert forall|a: int| v <= a < rk.len() implies lex_lt(k, #[trigger] rk[a]) by {
            assert(lex_lt(k, keys[mid + 1 + a]));
        }
        lemma_upper(rk, k, v);
    }
}

/// Two halves of an internal node are two trees that part its range.
#[verifier::rlimit(40)]
pub proof fn lemma_split_inner(
    n: Nodes,
    n2: Nodes,
    id: u64,
    r: u64,
    h: nat,
    lo: Option<Seq<u8>>,
    hi: Option<Seq<u8>>,
    after: u64,
    mid: int,
)
    requires
        tree(n, id, h, lo, hi, after),
        h > 0,
        0 <= mid < n[id].keys().len(),
        r != 0,
        !n.contains_key(r),
        n2.contains_key(id),
        n2.contains_key(r),
        n2[id] is Internal,
        n2[id]->Internal_keys == n[id]->Internal_keys.take(mid),
        n2[id]->kids == n[id]->kids.take(mid + 1),
        n2[r] is Internal,
        n2[r]->Internal_keys == n[id]->Internal_keys.skip(mid + 1),
        n2[r]->kids == n[id]->kids.skip(mid + 1),
        forall|p: u64| n.contains_key(p) && p != id ==> #[trigger] kept(n, n2, p),
    ensures
        ({
            let m = n[id]->Internal_keys[mid];
            &&& between(m, lo, hi)
            &&& tree(n2, id, h, lo, Some(m), first_leaf(n2, r, h))
            &&& tree(n2, r, h, Some(m), hi, after)
            &&& apart(n2, id, r, h)
            &&& first_leaf(n2, id, h) == first_leaf(n, id, h)
            &&& grown_from(n, id, n2, id, h)
            &&& grown_from(n, id, n2, r, h)
            &&& forall|k: Seq<u8>|
                lex_lt(k, m) ==> #[trigger] lookup(n2, id, h, k) == lookup(n, id, h, k)
            &&& forall|k: Seq<u8>|
                !lex_lt(k, m) ==> #[trigger] lookup(n2, r, h, k) == lookup(n, id, h, k)
        }),
{
    let g = (h - 1) as nat;
    let keys = n[id]->Internal_keys;
    let kids = n[id]->kids;
    let m = keys[mid];
    let lk = n2[id]->Internal_keys;
    let rk = n2[r]->Internal_keys;
    let lc = n2[id]->kids;
    let rc = n2[r]->kids;
    assert(between(m, lo, hi));
    lemma_upper_halves(keys, mid, m);
    assert forall|j: int| 0 <= j < kids.len() implies {
        &&& tree(
            n2,
            #[trigger] kids[j],
            g,
            low(keys, lo, j),
            high(keys, hi, j),
            kid_after(n, kids, g, after, j),
        )
        &&& same_tree(n, n2, kids[j], g)
    } by {
        lemma_kids_kept(n, n2, id, h, lo, hi, after, j);
    }
    // Every page of a half is the half itself or a page of one of the old children.
    assert forall|p: u64| #[trigger] owns(n2, id, h, p) implies p == id || exists|j: int|
        0 <= j <= mid && owns(n, #[trigger] kids[j], g, p) by {
        if p != id {
            let j = choose|j: int| 0 <= j < lc.len() && owns(n2, #[trigger] lc[j], g, p);
            assert(lc[j] == kids[j]);
            lemma_same_page(n, n2, kids[j], g, p);
        }
    }
    assert forall|p: u64| #[trigger] owns(n2, r, h, p) implies p == r || exists|j: int|
        mid < j < kids.len() && owns(n, #[trigger] kids[j], g, p) by {
        if p != r {
            let j = choose|j: int| 0 <= j < rc.len() && owns(n2, #[trigger] rc[j], g, p);
            assert(rc[j] == kids[mid + 1 + j]);
            lemma_same_page(n, n2, kids[mid + 1 + j], g, p);
        }
    }
    assert(rc[0] == kids[mid + 1]);
    assert(lc[0] == kids[0]);
    lemma_same_first(n, n2, kids[0], g);
    assert(first_leaf(n2, r, h) == first_leaf(n2, rc[0], g));
    assert forall|j: int| 0 <= j < lc.len() implies {
        &&& tree(
            n2,
            #[trigger] lc[j],
            g,
            low(lk, lo, j),
            high(lk, Some(m), j),
            kid_after(n2, lc, g, first_leaf(n2, r, h), j),
        )
        &&& !owns(n2, lc[j], g, id)
    } by {
        lemma_kid_after(n, kids, g, after, j);
        lemma_kid_after(n2, lc, g, first_leaf(n2, r, h), j);
        assert(lc[j] == kids[j]);
        lemma_same_first(n, n2, kids[j + 1], g);
        if j + 1 < lc.len() {
            assert(lc[j + 1] == kids[j + 1]);
        }
        lemma_same_page(n, n2, kids[j], g, id);
        assert(low(lk, lo, j) == low(keys, lo, j));
        assert(high(lk, Some(m), j) == high(keys, hi, j));
    }
    assert forall|j: int| 0 <= j < rc.len() implies {
        &&& tree(
            n2,
            #[trigger] rc[j],
            g,
            low(rk, Some(m), j),
            high(rk, hi, j),
            kid_after(n2, rc, g, after, j),
        )
        &&& !owns(n2, rc[j], g, r)
    } by {
        let x = mid + 1 + j;
        lemma_kid_after(n, kids, g, after, x);
        lemma_kid_after(n2, rc, g, after, j);
        assert(rc[j] == kids[x]);
        if j + 1 < rc.len() {
            assert(rc[j + 1] == kids[x + 1]);
            lemma_same_first(n, n2, kids[x + 1], g);
        }
        lemma_same_page(n, n2, kids[x], g, r);
        if owns(n, kids[x], g, r) {
            lemma_kid_pages(n, id, h, lo, hi, after, x, r);
        }
        assert(low(rk, Some(m), j) == low(keys, lo, x));
        assert(high(rk, hi, j) == high(keys, hi, x));
    }
    assert forall|j: int| 0 <= j < lk.len() implies between(#[trigger] lk[j], lo, Some(m)) by {
        assert(between(keys[j], lo, hi));
        assert(lex_le(keys[j], keys[mid]));
    }
    assert forall|j: int| 0 <= j < rk.len() implies between(#[trigger] rk[j], Some(m), hi) by {
        assert(between(keys[mid + 1 + j], lo, hi));
        assert(lex_le(keys[mid], keys[mid + 1 + j]));
    }
    assert forall|a: int, b: int, p: u64| 0 <= a < b < lc.len() implies !(#[trigger] owns(
        n2,
        lc[a],
        g,
        p,
    ) && #[trigger] owns(n2, lc[b], g, p)) by {
        assert(lc[a] == kids[a] && lc[b] == kids[b]);
        lemma_same_page(n, n2, kids[a], g, p);
        lemma_same_page(n, n2, kids[b], g, p);
        assert(!(owns(n, kids[a], g, p) && owns(n, kids[b], g, p)));
    }
    assert forall|a: int, b: int, p: u64| 0 <= a < b < rc.len() implies !(#[trigger] owns(
        n2,
        rc[a],
        g,
        p,
    ) && #[trigger] owns(n2, rc[b], g, p)) by {
        let x = mid + 1 + a;
        let y = mid + 1 + b;
        assert(rc[a] == kids[x] && rc[b] == kids[y]);
        lemma_same_page(n, n2, kids[x], g, p);
        lemma_same_page(n, n2, kids[y], g, p);
        assert(!(owns(n, kids[x], g, p) && owns(n, kids[y], g, p)));
    }
    assert(tree(n2, id, h, lo, Some(m), first_leaf(n2, r, h)));
    assert(tree(n2, r, h, Some(m), hi, after));
    assert forall|p: u64| !(#[trigger] owns(n2, id, h, p) && #[trigger] owns(n2, r, h, p)) by {
        if owns(n2, id, h, p) && owns(n2, r, h, p) {
            if p == id {
                let j = choose|j: int| mid < j < kids.len() && owns(n, #[trigger] kids[j], g, p);
                lemma_kid_pages(n, id, h, lo, hi, after, j, p);
            } else if p == r {
                let j = choose|j: int| 0 <= j <= mid && owns(n, #[trigger] kids[j], g, p);
                lemma_kid_pages(n, id, h, lo, hi, after, j, p);
            } else {
                let a = choose|j: int| 0 <= j <= mid && owns(n, #[trigger] kids[j], g, p);
                let b = choose|j: int| mid < j < kids.len() && owns(n, #[trigger] kids[j], g, p);
                assert(!(owns(n, kids[a], g, p) && owns(n, kids[b], g, p)));
            }
        }
    }
    assert forall|k: Seq<u8>| lex_lt(k, m) implies #[trigger] lookup(n2, id, h, k) == lookup(
        n,
        id,
        h,
        k,
    ) by {
        lemma_upper_halves(keys, mid, k);
        let u = upper(keys, k);
        assert(lc[u] == kids[u]);
        lemma_same_lookup(n, n2, kids[u], g, k);
    }
    assert forall|k: Seq<u8>| !lex_lt(k, m) implies #[trigger] lookup(n2, r, h, k) == lookup(
        n,
        id,
        h,
        k,
    ) by {
        lemma_upper_halves(keys, mid, k);
        let u = upper(keys, k);
        assert(rc[u - (mid + 1)] == kids[u]);
        lemma_same_lookup(n, n2, kids[u], g, k);
    }
}

/// A page of a child is a node and is not the parent.
proof fn lemma_kid_pages(
    n: Nodes,
    id: u64,
    h: nat,
    lo: Option<Seq<u8>>,
    hi: Option<Seq<u8>>,
    after: u64,
    j: int,
    p: u64,
)
    requires
        tree(n, id, h, lo, hi, after),
        h > 0,
        0 <= j < n[id]->kids.len(),
        owns(n, n[id]->kids[j], (h - 1) as nat, p),
    ensures
        n.contains_key(p),
        p != id,
{
    let g = (h - 1) as nat;
    let keys = n[id]->Internal_keys;
    let kids = n[id]->kids;
    lemma_owned_is_node(
        n,
        kids[j],
        g,
        low(keys, lo, j),
        high(keys, hi, j),
        kid_after(n, kids, g, after, j),
        p,
    );
    assert(!owns(n, kids[j], g, id));
}

/// The children are kept when only their parent changes.
proof fn lemma_kids_kept(
    n: Nodes,
    n2: Nodes,
    id: u64,
    h: nat,
    lo: Option<Seq<u8>>,
    hi: Option<Seq<u8>>,
    after: u64,
    j: int,
)
    requires
        tree(n, id, h, lo, hi, after),
        h > 0,
        0 <= j < n[id]->kids.len(),
        forall|p: u64| n.contains_key(p) && p != id ==> #[trigger] kept(n, n2, p),
    ensures
        tree(
            n2,
            n[id]->kids[j],
            (h - 1) as nat,
            low(n[id]->Internal_keys, lo, j),
            high(n[id]->Internal_keys, hi, j),
            kid_after(n, n[id]->kids, (h - 1) as nat, after, j),
        ),
        same_tree(n, n2, n[id]->kids[j], (h - 1) as nat),
{
    let g = (h - 1) as nat;
    let keys = n[id]->Internal_keys;
    let kids = n[id]->kids;
    let kid = kids[j];
    assert forall|p: u64| #[trigger] owns(n, kid, g, p) implies kept(n, n2, p) by {
        lemma_kid_pages(n, id, h, lo, hi, after, j, p);
    }
    lemma_frame(
        n,
        n2,
        kid,
        g,
        low(keys, lo, j),
        high(keys, hi, j),
        kid_after(n, kids, g, after, j),
    );
    reveal(same_tree);
}

/// Two trees that part the keys make one tree under a new root.
pub proof fn lemma_new_root(
    n: Nodes,
    n2: Nodes,
    root: u64,
    left: u64,
    right: u64,
    h: nat,
    m: Seq<u8>,
)
    requires
        root != 0,
        !n.contains_key(root),
        tree(n, left, h, None, Some(m), first_leaf(n, right, h)),
        tree(n, right, h, Some(m), None, 0),
        apart(n, left, right, h),
        n2.contains_key(root),
        n2[root] is Internal,
        n2[root]->Internal_keys == seq![m],
        n2[root]->kids == seq![left, right],
        forall|p: u64| n.contains_key(p) ==> #[trigger] kept(n, n2, p),
    ensures
        tree(n2, root, h + 1, None, None, 0),
        forall|k: Seq<u8>| #[trigger]
            lookup(n2, root, h + 1, k) == (if lex_lt(k, m) {
                lookup(n, left, h, k)
            } else {
                lookup(n, right, h, k)
            }),
        forall|p: u64| #[trigger]
            owns(n2, root, h + 1, p) ==> p == root || owns(n, left, h, p) || owns(n, right, h, p),
        first_leaf(n2, root, h + 1) == first_leaf(n, left, h),
{
    let keys = seq![m];
    let kids = seq![left, right];
    let la = first_leaf(n, right, h);
    assert forall|p: u64| #[trigger] owns(n, left, h, p) implies kept(n, n2, p)
        && n.contains_key(p) by {
        lemma_owned_is_node(n, left, h, None, Some(m), la, p);
    }
    assert forall|p: u64| #[trigger] owns(n, right, h, p) implies kept(n, n2, p)
        && n.contains_key(p) by {
        lemma_owned_is_node(n, right, h, Some(m), None, 0, p);
    }
    lemma_frame(n, n2, left, h, None, Some(m), la);
    lemma_frame(n, n2, right, h, Some(m), None, 0);
    assert(nondecreasing(keys));
    assert forall|i: int| 0 <= i < kids.len() implies tree(
        n2,
        #[trigger] kids[i],
        h,
        low(keys, None, i),
        high(keys, None, i),
        kid_after(n2, kids, h, 0, i),
    ) by {
        lemma_kid_after(n2, kids, h, 0, i);
    }
    assert forall|i: int| 0 <= i < kids.len() implies !owns(n2, #[trigger] kids[i], h, root) by {
        assert(owns(n2, left, h, root) == owns(n, left, h, root));
        assert(owns(n2, right, h, root) == owns(n, right, h, root));
    }
    assert forall|i: int, j: int, p: u64| 0 <= i < j < kids.len() implies !(#[trigger] owns(
        n2,
        kids[i],
        h,
        p,
    ) && #[trigger] owns(n2, kids[j], h, p)) by {
        assert(owns(n2, left, h, p) == owns(n, left, h, p));
        assert(owns(n2, right, h, p) == owns(n, right, h, p));
        assert(!(owns(n, left, h, p) && owns(n, right, h, p)));
    }
    assert forall|k: Seq<u8>| #[trigger] lookup(n2, root, h + 1, k) == (if lex_lt(k, m) {
        lookup(n, left, h, k)
    } else {
        lookup(n, right, h, k)
    }) by {
        lemma_lex_total(k, m);
        if lex_lt(k, m) {
            lemma_upper(keys, k, 0);
            assert(lookup(n2, left, h, k) == lookup(n, left, h, k));
        } else {
            lemma_upper(keys, k, 1);
            assert(lookup(n2, right, h, k) == lookup(n, right, h, k));
        }
    }
    assert forall|p: u64| #[trigger] owns(n2, root, h + 1, p) implies p == root || owns(
        n,
        left,
        h,
        p,
    ) || owns(n, right, h, p) by {
        if p != root {
            let i = choose|i: int| 0 <= i < kids.len() && owns(n2, #[trigger] kids[i], h, p);
            assert(owns(n2, left, h, p) == owns(n, left, h, p));
            assert(owns(n2, right, h, p) == owns(n, right, h, p));
        }
    }
}

/// The keys of a leaf after a key was put.
pub open spec fn put_keys(keys: Seq<Seq<u8>>, key: Seq<u8>) -> Seq<Seq<u8>> {
    let r = rank(keys, key);
    if 0 <= r < keys.len() && keys[r] == key {
        keys
    } else {
        keys.insert(r, key)
    }
}

/// The versions of a leaf after the versions of a key were put.
pub open spec fn put_chains(
    keys: Seq<Seq<u8>>,
    chains: Seq<Seq<Version>>,
    key: Seq<u8>,
    vs: Seq<Version>,
) -> Seq<Seq<Version>> {
    let r = rank(keys, key);
    if 0 <= r < keys.len() && keys[r] == key {
        chains.update(r, vs)
    } else {
        chains.insert(r, vs)
    }
}

/// Putting the versions of a key into a leaf changes what it holds of that key alone.
pub proof fn lemma_leaf_put(
    keys: Seq<Seq<u8>>,
    chains: Seq<Seq<Version>>,
    key: Seq<u8>,
    vs: Seq<Version>,
)
    requires
        ascending(keys),
        keys.len() == chains.len(),
    ensures
        0 <= rank(keys, key) <= keys.len(),
        ascending(put_keys(keys, key)),
        put_keys(keys, key).len() == put_chains(keys, chains, key, vs).len(),
        forall|i: int|
            0 <= i < put_keys(keys, key).len() ==> #[trigger] put_keys(keys, key)[i] == key
                || keys.contains(put_keys(keys, key)[i]),
        forall|i: int|
            0 <= i < put_chains(keys, chains, key, vs).len() ==> #[trigger] put_chains(
                keys,
                chains,
                key,
                vs,
            )[i] == vs || chains.contains(put_chains(keys, chains, key, vs)[i]),
        forall|k: Seq<u8>| #[trigger]
            leaf_lookup(put_keys(keys, key), put_chains(keys, chains, key, vs), k) == (if k
                == key {
                Some(vs)
            } else {
                leaf_lookup(keys, chains, k)
            }),
{
    lemma_rank_parts(keys, key);
    let r = rank(keys, key);
    let keys2 = put_keys(keys, key);
    let chains2 = put_chains(keys, chains, key, vs);
    let found = r < keys.len() && keys[r] == key;
    if !found {
        assert forall|a: int, b: int| 0 <= a < b < keys2.len() implies lex_lt(
            #[trigger] keys2[a],
            #[trigger] keys2[b],
        ) by {
            if a == r {
                lemma_lex_total(keys[b - 1], key);
                if b - 1 > r {
                    lemma_lex_total(keys[r], key);
                    assert(lex_lt(keys[r], keys[b - 1]));
                    if keys[b - 1] == key {
                        assert(!lex_lt(keys[r], key));
                    }
                }
            } else if b == r {
                assert(lex_lt(keys[a], key));
            } else {
                let x = if a < r { a } else { a - 1 };
                let y = if b < r { b } else { b - 1 };
                assert(lex_lt(keys[x], keys[y]));
            }
        }
    }
    assert(keys2[r] == key && chains2[r] == vs);
    assert forall|i: int| 0 <= i < keys2.len() implies #[trigger] keys2[i] == key || keys.contains(
        keys2[i],
    ) by {
        if !found && i != r {
            let x = if i < r { i } else { i - 1 };
            assert(keys[x] == keys2[i]);
        } else if found {
            assert(keys[i] == keys2[i]);
        }
    }
    assert forall|i: int| 0 <= i < chains2.len() implies #[trigger] chains2[i] == vs
        || chains.contains(chains2[i]) by {
        if i != r {
            let x = if found || i < r { i } else { i - 1 };
            assert(chains[x] == chains2[i]);
        }
    }
    assert forall|k: Seq<u8>| #[trigger] leaf_lookup(keys2, chains2, k) == (if k == key {
        Some(vs)
    } else {
        leaf_lookup(keys, chains, k)
    }) by {
        if k == key {
            lemma_leaf_entry(keys2, chains2, r);
        } else if leaf_lookup(keys, chains, k) is Some {
            let i = lemma_leaf_found(keys, chains, k);
            let j = if found || i < r { i } else { i + 1 };
            assert(keys2[j] == k);
            lemma_leaf_entry(keys2, chains2, j);
        } else if leaf_lookup(keys2, chains2, k) is Some {
            let j = lemma_leaf_found(keys2, chains2, k);
            let i = if found || j < r { j } else { j - 1 };
            assert(keys[i] == k);
            lemma_leaf_entry(keys, chains, i);
        }
    }
}

} // verus!

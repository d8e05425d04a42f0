//! The leaves of a tree in order, and what they hold in order.
use crate::btree::node::Node;
use crate::btree::tree::{
    first_leaf, high, in_range, kid_after, leaf_lookup, lemma_kid_changed, lemma_leaf_entry,
    lemma_leaf_found, lemma_upper, lemma_upper_parts, lookup, low, owns, tree, upper, grown_from,
    kept_outside, Nodes,
};
use crate::btree::paged::route;
use crate::bytemap::ascending;
use crate::bytes::{lemma_lex_transitive, lex_le, lex_lt};
use crate::txn::Version;
use vstd::prelude::*;

verus! {

/// The leaves of the tree of height `h` under page `id`, in order.
pub open spec fn leaves(n: Nodes, id: u64, h: nat) -> Seq<u64>
    decreases h, 1int, 0int,
{
    if h == 0 || !(n[id] is Internal) {
        seq![id]
    } else {
        leaves_upto(n, n[id]->kids, (h - 1) as nat, n[id]->kids.len() as int)
    }
}

/// The leaves of the first `k` of several trees of height `g`, in order.
pub open spec fn leaves_upto(n: Nodes, kids: Seq<u64>, g: nat, k: int) -> Seq<u64>
    decreases g + 1, 0int, k,
{
    if k <= 0 {
        Seq::empty()
    } else {
        leaves_upto(n, kids, g, k - 1) + leaves(n, kids[k - 1], g)
    }
}

/// The keys of several leaves, one after the other.
pub open spec fn flat_keys(n: Nodes, ls: Seq<u64>) -> Seq<Seq<u8>>
    decreases ls.len(),
{
    if ls.len() == 0 {
        Seq::empty()
    } else {
        flat_keys(n, ls.drop_last()) + n[ls.last()]->Leaf_keys
    }
}

/// The versions of several leaves, one after the other.
pub open spec fn flat_chains(n: Nodes, ls: Seq<u64>) -> Seq<Seq<Version>>
    decreases ls.len(),
{
    if ls.len() == 0 {
        Seq::empty()
    } else {
        flat_chains(n, ls.drop_last()) + n[ls.last()]->chains
    }
}

pub(crate) proof fn lemma_flat_add(n: Nodes, a: Seq<u64>, b: Seq<u64>)
    ensures
        flat_keys(n, a + b) == flat_keys(n, a) + flat_keys(n, b),
        flat_chains(n, a + b) == flat_chains(n, a) + flat_chains(n, b),
    decreases b.len(),
{
    if b.len() == 0 {
        assert(a + b =~= a);
        assert(flat_keys(n, a) + flat_keys(n, b) =~= flat_keys(n, a));
        assert(flat_chains(n, a) + flat_chains(n, b) =~= flat_chains(n, a));
    } else {
        lemma_flat_add(n, a, b.drop_last());
        assert((a + b).drop_last() =~= a + b.drop_last());
        assert(flat_keys(n, a + b) =~= flat_keys(n, a) + flat_keys(n, b));
        assert(flat_chains(n, a + b) =~= flat_chains(n, a) + flat_chains(n, b));
    }
}

/// Each page is a leaf that is followed by the next one, and the last by `after`. No page occurs
/// twice.
pub open spec fn linked(n: Nodes, ls: Seq<u64>, after: u64) -> bool {
    &&& forall|i: int|
        0 <= i < ls.len() ==> {
            &&& n.contains_key(#[trigger] ls[i])
            &&& ls[i] != 0
            &&& n[ls[i]] is Leaf
            &&& n[ls[i]]->next == (if i + 1 < ls.len() {
                ls[i + 1]
            } else {
                after
            })
            &&& n[ls[i]]->Leaf_keys.len() == n[ls[i]]->chains.len()
            &&& ascending(n[ls[i]]->Leaf_keys)
        }
    &&& ls.no_duplicates()
}

/// The keys ascend from leaf to leaf within a range, and each has a version.
pub open spec fn sorted(
    n: Nodes,
    ls: Seq<u64>,
    lo: Option<Seq<u8>>,
    hi: Option<Seq<u8>>,
) -> bool {
    &&& flat_keys(n, ls).len() == flat_chains(n, ls).len()
    &&& ascending(flat_keys(n, ls))
    &&& forall|i: int|
        0 <= i < flat_keys(n, ls).len() ==> in_range(#[trigger] flat_keys(n, ls)[i], lo, hi)
    &&& forall|i: int|
        0 <= i < flat_chains(n, ls).len() ==> (#[trigger] flat_chains(n, ls)[i]).len() > 0
}

proof fn lemma_linked_add(n: Nodes, a: Seq<u64>, b: Seq<u64>, after: u64)
    requires
        b.len() > 0,
        linked(n, a, b[0]),
        linked(n, b, after),
        forall|i: int, j: int| 0 <= i < a.len() && 0 <= j < b.len() ==> a[i] != b[j],
    ensures
        linked(n, a + b, after),
{
    let ls = a + b;
    assert forall|i: int| 0 <= i < ls.len() implies {
        &&& n.contains_key(#[trigger] ls[i])
        &&& ls[i] != 0
        &&& n[ls[i]] is Leaf
        &&& n[ls[i]]->next == (if i + 1 < ls.len() {
            ls[i + 1]
        } else {
            after
        })
        &&& n[ls[i]]->Leaf_keys.len() == n[ls[i]]->chains.len()
        &&& ascending(n[ls[i]]->Leaf_keys)
    } by {
        if i < a.len() {
            assert(ls[i] == a[i]);
            if i + 1 < a.len() {
                assert(ls[i + 1] == a[i + 1]);
            }
        } else {
            assert(ls[i] == b[i - a.len()]);
            if i + 1 < ls.len() {
                assert(ls[i + 1] == b[i + 1 - a.len()]);
            }
        }
    }
}

proof fn lemma_sorted_add(
    n: Nodes,
    a: Seq<u64>,
    b: Seq<u64>,
    lo: Option<Seq<u8>>,
    s: Seq<u8>,
    hi: Option<Seq<u8>>,
)
    requires
        sorted(n, a, lo, Some(s)),
        sorted(n, b, Some(s), hi),
        lo matches Some(l) ==> lex_le(l, s),
        hi matches Some(u) ==> lex_le(s, u),
    ensures
        sorted(n, a + b, lo, hi),
{
    lemma_flat_add(n, a, b);
    let ka = flat_keys(n, a);
    let kb = flat_keys(n, b);
    let ca = flat_chains(n, a);
    let cb = flat_chains(n, b);
    assert forall|i: int, j: int| 0 <= i < j < (ka + kb).len() implies lex_lt(
        #[trigger] (ka + kb)[i],
        #[trigger] (ka + kb)[j],
    ) by {
        if j < ka.len() {
            assert(lex_lt(ka[i], ka[j]));
        } else if i >= ka.len() {
            assert(lex_lt(kb[i - ka.len()], kb[j - ka.len()]));
        } else {
            assert(in_range(ka[i], lo, Some(s)));
            assert(in_range(kb[j - ka.len()], Some(s), hi));
            if s != kb[j - ka.len()] {
                lemma_lex_transitive(ka[i], s, kb[j - ka.len()]);
            }
        }
    }
    assert forall|i: int| 0 <= i < (ka + kb).len() implies in_range(
        #[trigger] (ka + kb)[i],
        lo,
        hi,
    ) by {
        if i < ka.len() {
            assert(in_range(ka[i], lo, Some(s)));
            if let Some(u) = hi {
                if s != u {
                    lemma_lex_transitive(ka[i], s, u);
                }
            }
        } else {
            let x = kb[i - ka.len()];
            assert(in_range(x, Some(s), hi));
            if let Some(l) = lo {
                if l != s && s != x {
                    lemma_lex_transitive(l, s, x);
                }
            }
        }
    }
    assert forall|i: int| 0 <= i < (ca + cb).len() implies (#[trigger] (ca + cb)[i]).len() > 0 by {
        if i < ca.len() {
            assert(ca[i].len() > 0);
        } else {
            assert(cb[i - ca.len()].len() > 0);
        }
    }
}

/// The leaves of a tree are listed, start at the first leaf, are pages of the tree, and are all
/// the leaves among those. What they list of a key is what the tree holds of it.
#[verifier::rlimit(50)]
pub proof fn lemma_leaves(
    n: Nodes,
    id: u64,
    h: nat,
    lo: Option<Seq<u8>>,
    hi: Option<Seq<u8>>,
    after: u64,
)
    requires
        tree(n, id, h, lo, hi, after),
    ensures
        linked(n, leaves(n, id, h), after),
        sorted(n, leaves(n, id, h), lo, hi),
        kid_holds(n, id, h),
    decreases h, 1int, 0int,
{
    let ls = leaves(n, id, h);
    if h == 0 {
        let keys = n[id]->Leaf_keys;
        let chains = n[id]->chains;
        assert(ls.drop_last() =~= Seq::<u64>::empty());
        assert(flat_keys(n, ls.drop_last()) == Seq::<Seq<u8>>::empty());
        assert(flat_chains(n, ls.drop_last()) == Seq::<Seq<Version>>::empty());
        assert(flat_keys(n, ls) =~= keys);
        assert(flat_chains(n, ls) =~= chains);
        assert forall|i: int| 0 <= i < keys.len() implies lookup(n, id, h, #[trigger] keys[i])
            == Some(chains[i]) by {
            lemma_leaf_entry(keys, chains, i);
        }
        assert forall|k: Seq<u8>| #[trigger] lookup(n, id, h, k) is Some implies keys.contains(
            k,
        ) by {
            let i = lemma_leaf_found(keys, chains, k);
            assert(keys[i] == k);
        }
        assert(ls[0] == id);
    } else {
        let keys = n[id]->Internal_keys;
        let kids = n[id]->kids;
        let g = (h - 1) as nat;
        let k = kids.len() as int;
        lemma_leaves_upto(n, id, h, lo, hi, after, k);
        reveal(kid_after);
        reveal(upto_holds);
        assert(ls == leaves_upto(n, kids, g, k));
        assert forall|p: u64| #[trigger] owns(n, id, h, p) && n[p] is Leaf implies ls.contains(
            p,
        ) by {
            let j = choose|j: int| 0 <= j < kids.len() && owns(n, #[trigger] kids[j], g, p);
            assert(owned_below(n, kids, g, k, p));
        }
        assert forall|i: int| 0 <= i < ls.len() implies owns(n, id, h, #[trigger] ls[i]) by {
            assert(owned_below(n, kids, g, k, ls[i]));
            let j = choose|j: int| 0 <= j < k && owns(n, #[trigger] kids[j], g, ls[i]);
            assert(owns(n, kids[j], g, ls[i]));
        }
        assert forall|x: Seq<u8>| #[trigger] lookup(n, id, h, x) is Some implies flat_keys(
            n,
            ls,
        ).contains(x) by {
            lemma_upper_parts(keys, x);
        }
    }
}

/// Page `p` belongs to one of the first `k` trees.
pub open spec fn owned_below(n: Nodes, kids: Seq<u64>, g: nat, k: int, p: u64) -> bool {
    exists|j: int| 0 <= j < k && owns(n, #[trigger] kids[j], g, p)
}

/// What holds of the leaves of the first `k` children.
#[verifier::opaque]
spec fn upto_holds(
    n: Nodes,
    id: u64,
    h: nat,
    lo: Option<Seq<u8>>,
    hi: Option<Seq<u8>>,
    after: u64,
    k: int,
) -> bool {
    let g = (h - 1) as nat;
    let keys = n[id]->Internal_keys;
    let kids = n[id]->kids;
    let ls = leaves_upto(n, kids, g, k);
    &&& ls.len() > 0
    &&& ls[0] == first_leaf(n, kids[0], g)
    &&& forall|i: int| 0 <= i < ls.len() ==> owned_below(n, kids, g, k, #[trigger] ls[i])
    &&& forall|p: u64| #[trigger]
        owned_below(n, kids, g, k, p) && n[p] is Leaf ==> ls.contains(p)
    &&& flat_holds(n, id, h, k, ls)
}

/// What the first `k` children hold is what their leaves list.
spec fn flat_holds(n: Nodes, id: u64, h: nat, k: int, ls: Seq<u64>) -> bool {
    &&& forall|i: int|
        #![trigger flat_keys(n, ls)[i]]
        0 <= i < flat_keys(n, ls).len() ==> lookup(n, id, h, flat_keys(n, ls)[i]) == Some(
            flat_chains(n, ls)[i],
        )
    &&& forall|x: Seq<u8>| #[trigger]
        lookup(n, id, h, x) is Some && upper(n[id]->Internal_keys, x) < k ==> flat_keys(
            n,
            ls,
        ).contains(x)
}

proof fn lemma_leaves_upto(
    n: Nodes,
    id: u64,
    h: nat,
    lo: Option<Seq<u8>>,
    hi: Option<Seq<u8>>,
    after: u64,
    k: int,
)
    requires
        tree(n, id, h, lo, hi, after),
        h > 0,
        1 <= k <= n[id]->kids.len(),
    ensures
        upto_holds(n, id, h, lo, hi, after, k),
        linked(
            n,
            leaves_upto(n, n[id]->kids, (h - 1) as nat, k),
            kid_after(n, n[id]->kids, (h - 1) as nat, after, k - 1),
        ),
        sorted(
            n,
            leaves_upto(n, n[id]->kids, (h - 1) as nat, k),
            lo,
            high(n[id]->Internal_keys, hi, k - 1),
        ),
    decreases h, 0int, k,
{
    let g = (h - 1) as nat;
    let keys = n[id]->Internal_keys;
    let kids = n[id]->kids;
    let b = leaves(n, kids[k - 1], g);
    let a = leaves_upto(n, kids, g, k - 1);
    let lo_b = low(keys, lo, k - 1);
    let hi_b = high(keys, hi, k - 1);
    let after_b = kid_after(n, kids, g, after, k - 1);
    assert(tree(n, kids[k - 1], g, lo_b, hi_b, after_b));
    lemma_leaves(n, kids[k - 1], g, lo_b, hi_b, after_b);
    if k == 1 {
        assert(a =~= Seq::empty());
        assert(leaves_upto(n, kids, g, k) =~= b);
        lemma_upto_first(n, id, h, lo, hi, after);
    } else {
        lemma_leaves_upto(n, id, h, lo, hi, after, k - 1);
        assert(kid_after(n, kids, g, after, k - 2) == b[0]) by {
            reveal(kid_after);
        }
        assert forall|i: int, j: int| 0 <= i < a.len() && 0 <= j < b.len() implies a[i]
            != b[j] by {
            reveal(upto_holds);
            assert(owned_below(n, kids, g, k - 1, a[i]));
            assert(owns(n, kids[k - 1], g, b[j]));
            lemma_apart_below(n, id, h, lo, hi, after, k - 1, a[i], b[j]);
        }
        lemma_linked_add(n, a, b, after_b);
        let s = keys[k - 2];
        assert(crate::btree::tree::between(s, lo, hi));
        if k - 1 < keys.len() {
            assert(lex_le(keys[k - 2], keys[k - 1]));
        }
        lemma_sorted_add(n, a, b, lo, s, hi_b);
        lemma_upto_next(n, id, h, lo, hi, after, k);
    }
}

/// The keys of the first children ascend and lie before the separator behind them.
pub(crate) proof fn lemma_upto_sorted(
    n: Nodes,
    id: u64,
    h: nat,
    lo: Option<Seq<u8>>,
    hi: Option<Seq<u8>>,
    after: u64,
    k: int,
)
    requires
        tree(n, id, h, lo, hi, after),
        h > 0,
        1 <= k <= n[id]->kids.len(),
    ensures
        sorted(
            n,
            leaves_upto(n, n[id]->kids, (h - 1) as nat, k),
            lo,
            high(n[id]->Internal_keys, hi, k - 1),
        ),
{
    lemma_leaves_upto(n, id, h, lo, hi, after, k);
}

/// What holds of the leaves of the first child.
proof fn lemma_upto_first(
    n: Nodes,
    id: u64,
    h: nat,
    lo: Option<Seq<u8>>,
    hi: Option<Seq<u8>>,
    after: u64,
)
    requires
        tree(n, id, h, lo, hi, after),
        h > 0,
        leaves_upto(n, n[id]->kids, (h - 1) as nat, 1) == leaves(
            n,
            n[id]->kids[0],
            (h - 1) as nat,
        ),
        kid_holds(n, n[id]->kids[0], (h - 1) as nat),
        sorted(
            n,
            leaves(n, n[id]->kids[0], (h - 1) as nat),
            low(n[id]->Internal_keys, lo, 0),
            high(n[id]->Internal_keys, hi, 0),
        ),
    ensures
        upto_holds(n, id, h, lo, hi, after, 1),
{
    reveal(upto_holds);
    let g = (h - 1) as nat;
    let keys = n[id]->Internal_keys;
    let kids = n[id]->kids;
    let ls = leaves(n, kids[0], g);
    lemma_kid_lookup(n, id, h, lo, hi, after, 0);
    assert forall|i: int| 0 <= i < ls.len() implies owned_below(
        n,
        kids,
        g,
        1,
        #[trigger] ls[i],
    ) by {
        assert(owns(n, kids[0], g, ls[i]));
    }
    assert forall|p: u64| #[trigger] owned_below(n, kids, g, 1, p) && n[p] is Leaf implies
        ls.contains(p) by {
        assert(owns(n, kids[0], g, p));
    }
    assert forall|i: int|
        #![trigger flat_keys(n, ls)[i]]
        0 <= i < flat_keys(n, ls).len() implies lookup(n, id, h, flat_keys(n, ls)[i]) == Some(
        flat_chains(n, ls)[i],
    ) by {
        let x = flat_keys(n, ls)[i];
        assert(in_range(x, low(keys, lo, 0), high(keys, hi, 0)));
        assert(lookup(n, id, h, x) == lookup(n, kids[0], g, x));
    }
    assert forall|x: Seq<u8>| #[trigger] lookup(n, id, h, x) is Some && upper(keys, x) < 1 implies
        flat_keys(n, ls).contains(x) by {
        lemma_upper_parts(keys, x);
        assert(lookup(n, kids[0], g, x) is Some);
    }
}

/// What holds of the leaves of a tree.
pub open spec fn kid_holds(n: Nodes, id: u64, h: nat) -> bool {
    &&& leaves(n, id, h).len() > 0
    &&& leaves(n, id, h)[0] == first_leaf(n, id, h)
    &&& forall|i: int|
        0 <= i < leaves(n, id, h).len() ==> owns(n, id, h, #[trigger] leaves(n, id, h)[i])
    &&& forall|p: u64| #[trigger]
        owns(n, id, h, p) && n[p] is Leaf ==> leaves(n, id, h).contains(p)
    &&& forall|i: int|
        #![trigger flat_keys(n, leaves(n, id, h))[i]]
        0 <= i < flat_keys(n, leaves(n, id, h)).len() ==> lookup(
            n,
            id,
            h,
            flat_keys(n, leaves(n, id, h))[i],
        ) == Some(flat_chains(n, leaves(n, id, h))[i])
    &&& forall|k: Seq<u8>| #[trigger]
        lookup(n, id, h, k) is Some ==> flat_keys(n, leaves(n, id, h)).contains(k)
}

/// What holds of the leaves of one child more.
proof fn lemma_upto_next(
    n: Nodes,
    id: u64,
    h: nat,
    lo: Option<Seq<u8>>,
    hi: Option<Seq<u8>>,
    after: u64,
    k: int,
)
    requires
        tree(n, id, h, lo, hi, after),
        h > 0,
        2 <= k <= n[id]->kids.len(),
        upto_holds(n, id, h, lo, hi, after, k - 1),
        kid_holds(n, n[id]->kids[k - 1], (h - 1) as nat),
        sorted(
            n,
            leaves(n, n[id]->kids[k - 1], (h - 1) as nat),
            low(n[id]->Internal_keys, lo, k - 1),
            high(n[id]->Internal_keys, hi, k - 1),
        ),
        sorted(
            n,
            leaves_upto(n, n[id]->kids, (h - 1) as nat, k - 1),
            lo,
            high(n[id]->Internal_keys, hi, k - 2),
        ),
    ensures
        upto_holds(n, id, h, lo, hi, after, k),
{
    reveal(upto_holds);
    let g = (h - 1) as nat;
    let keys = n[id]->Internal_keys;
    let kids = n[id]->kids;
    let b = leaves(n, kids[k - 1], g);
    let a = leaves_upto(n, kids, g, k - 1);
    let ls = leaves_upto(n, kids, g, k);
    assert(ls == a + b);
    lemma_flat_add(n, a, b);
    lemma_kid_lookup(n, id, h, lo, hi, after, k - 1);
    let ka = flat_keys(n, a);
    let kb = flat_keys(n, b);
    assert forall|i: int| 0 <= i < ls.len() implies owned_below(
        n,
        kids,
        g,
        k,
        #[trigger] ls[i],
    ) by {
        if i < a.len() {
            assert(owned_below(n, kids, g, k - 1, a[i]));
            let j = choose|j: int| 0 <= j < k - 1 && owns(n, #[trigger] kids[j], g, a[i]);
            assert(owns(n, kids[j], g, ls[i]));
        } else {
            assert(owns(n, kids[k - 1], g, b[i - a.len()]));
        }
    }
    assert forall|p: u64| #[trigger] owned_below(n, kids, g, k, p) && n[p] is Leaf implies
        ls.contains(p) by {
        let j = choose|j: int| 0 <= j < k && owns(n, #[trigger] kids[j], g, p);
        if j < k - 1 {
            assert(owned_below(n, kids, g, k - 1, p));
            let x = a.index_of(p);
            assert(ls[x] == p);
        } else {
            let x = b.index_of(p);
            assert(ls[a.len() + x] == p);
        }
    }
    assert forall|i: int|
        #![trigger flat_keys(n, ls)[i]]
        0 <= i < flat_keys(n, ls).len() implies lookup(n, id, h, flat_keys(n, ls)[i]) == Some(
        flat_chains(n, ls)[i],
    ) by {
        if i < ka.len() {
            assert(flat_keys(n, ls)[i] == ka[i]);
        } else {
            let x = i - ka.len();
            assert(flat_keys(n, ls)[i] == kb[x]);
            assert(in_range(kb[x], low(keys, lo, k - 1), high(keys, hi, k - 1)));
            assert(lookup(n, id, h, kb[x]) == lookup(n, kids[k - 1], g, kb[x]));
        }
    }
    assert forall|x: Seq<u8>| #[trigger] lookup(n, id, h, x) is Some && upper(keys, x) < k implies
        flat_keys(n, ls).contains(x) by {
        lemma_upper_parts(keys, x);
        let u = upper(keys, x);
        if u < k - 1 {
            let i = ka.index_of(x);
            assert(flat_keys(n, ls)[i] == x);
        } else {
            assert(lookup(n, kids[k - 1], g, x) is Some);
            let i = kb.index_of(x);
            assert(flat_keys(n, ls)[ka.len() + i] == x);
        }
    }
}

/// A key in the range of a child is looked up there.
proof fn lemma_kid_lookup(
    n: Nodes,
    id: u64,
    h: nat,
    lo: Option<Seq<u8>>,
    hi: Option<Seq<u8>>,
    after: u64,
    j: int,
)
    requires
        tree(n, id, h, lo, hi, after),
        h > 0,
        0 <= j < n[id]->kids.len(),
    ensures
        forall|x: Seq<u8>|
            in_range(x, low(n[id]->Internal_keys, lo, j), high(n[id]->Internal_keys, hi, j))
                ==> #[trigger] lookup(n, id, h, x) == lookup(
                n,
                n[id]->kids[j],
                (h - 1) as nat,
                x,
            ),
{
    let keys = n[id]->Internal_keys;
    assert forall|x: Seq<u8>|
        in_range(x, low(keys, lo, j), high(keys, hi, j)) implies #[trigger] lookup(n, id, h, x)
        == lookup(n, n[id]->kids[j], (h - 1) as nat, x) by {
        assert forall|i: int| 0 <= i < j implies lex_le(#[trigger] keys[i], x) by {
            if i < j - 1 {
                assert(lex_le(keys[i], keys[j - 1]));
                if keys[i] != keys[j - 1] && keys[j - 1] != x {
                    lemma_lex_transitive(keys[i], keys[j - 1], x);
                }
            }
        }
        assert forall|i: int| j <= i < keys.len() implies lex_lt(x, #[trigger] keys[i]) by {
            if i > j {
                assert(lex_le(keys[j], keys[i]));
                if keys[j] != keys[i] {
                    lemma_lex_transitive(x, keys[j], keys[i]);
                }
            }
        }
        lemma_upper(keys, x, j);
    }
}

proof fn lemma_apart_below(
    n: Nodes,
    id: u64,
    h: nat,
    lo: Option<Seq<u8>>,
    hi: Option<Seq<u8>>,
    after: u64,
    k: int,
    p: u64,
    q: u64,
)
    requires
        tree(n, id, h, lo, hi, after),
        h > 0,
        0 <= k < n[id]->kids.len(),
        owned_below(n, n[id]->kids, (h - 1) as nat, k, p),
        owns(n, n[id]->kids[k], (h - 1) as nat, q),
    ensures
        p != q,
{
    let g = (h - 1) as nat;
    let kids = n[id]->kids;
    let j = choose|j: int| 0 <= j < k && owns(n, #[trigger] kids[j], g, p);
    assert(!(owns(n, kids[j], g, p) && owns(n, kids[k], g, p)));
}

/// What a tree holds of a key is what its leaves list of it.
pub proof fn lemma_lookup_flat(
    n: Nodes,
    id: u64,
    h: nat,
    lo: Option<Seq<u8>>,
    hi: Option<Seq<u8>>,
    after: u64,
    k: Seq<u8>,
)
    requires
        tree(n, id, h, lo, hi, after),
    ensures
        lookup(n, id, h, k) == leaf_lookup(
            flat_keys(n, leaves(n, id, h)),
            flat_chains(n, leaves(n, id, h)),
            k,
        ),
{
    lemma_leaves(n, id, h, lo, hi, after);
    let keys = flat_keys(n, leaves(n, id, h));
    let chains = flat_chains(n, leaves(n, id, h));
    if lookup(n, id, h, k) is Some {
        let i = keys.index_of(k);
        assert(keys[i] == k);
        lemma_leaf_entry(keys, chains, i);
    } else if leaf_lookup(keys, chains, k) is Some {
        let i = lemma_leaf_found(keys, chains, k);
        assert(lookup(n, id, h, keys[i]) == Some(chains[i]));
    }
}

/// The leaf may stand in the place of another: its keys ascend, are among the keys of the other
/// and have versions, and it is followed by the same leaf.
pub open spec fn leaf_replaces(old: Node, new: Node) -> bool {
    &&& old is Leaf
    &&& new is Leaf
    &&& new->Leaf_keys.len() == new->chains.len()
    &&& ascending(new->Leaf_keys)
    &&& forall|i: int|
        0 <= i < new->Leaf_keys.len() ==> old->Leaf_keys.contains(#[trigger] new->Leaf_keys[i])
    &&& forall|i: int| 0 <= i < new->chains.len() ==> (#[trigger] new->chains[i]).len() > 0
    &&& new->next == old->next
}

/// A tree stays one when the leaf of a key is replaced, and only what that leaf holds changes.
pub proof fn lemma_leaf_replaced(
    n: Nodes,
    n2: Nodes,
    id: u64,
    h: nat,
    lo: Option<Seq<u8>>,
    hi: Option<Seq<u8>>,
    after: u64,
    key: Seq<u8>,
    leaf: Node,
)
    requires
        tree(n, id, h, lo, hi, after),
        leaf_replaces(n[route(n, id, h, key).last()], leaf),
        n2 == n.insert(route(n, id, h, key).last(), leaf),
    ensures
        tree(n2, id, h, lo, hi, after),
        grown_from(n, id, n2, id, h),
        kept_outside(n, n2, id, h),
        first_leaf(n2, id, h) == first_leaf(n, id, h),
        forall|k: Seq<u8>| #[trigger]
            lookup(n2, id, h, k) == (if route(n, id, h, k).last() == route(n, id, h, key).last() {
                leaf_lookup(leaf->Leaf_keys, leaf->chains, k)
            } else {
                lookup(n, id, h, k)
            }),
    decreases h,
{
    let at = route(n, id, h, key).last();
    if h == 0 {
        assert(at == id);
        let keys = leaf->Leaf_keys;
        assert forall|i: int| 0 <= i < keys.len() implies in_range(#[trigger] keys[i], lo, hi) by {
            let j = n[id]->Leaf_keys.index_of(keys[i]);
            assert(in_range(n[id]->Leaf_keys[j], lo, hi));
        }
    } else {
        let keys = n[id]->Internal_keys;
        let kids = n[id]->kids;
        let g = (h - 1) as nat;
        let i = upper(keys, key);
        lemma_upper_parts(keys, key);
        let tail = route(n, kids[i], g, key);
        crate::btree::paged::lemma_route(
            n,
            kids[i],
            g,
            low(keys, lo, i),
            high(keys, hi, i),
            kid_after(n, kids, g, after, i),
            key,
        );
        assert(route(n, id, h, key).last() == tail.last());
        assert(owns(n, kids[i], g, tail[g as int]));
        lemma_leaf_replaced(
            n,
            n2,
            kids[i],
            g,
            low(keys, lo, i),
            high(keys, hi, i),
            kid_after(n, kids, g, after, i),
            key,
            leaf,
        );
        assert(!owns(n, kids[i], g, id));
        lemma_kid_changed(n, n2, id, h, lo, hi, after, i);
        assert forall|k: Seq<u8>| #[trigger] lookup(n2, id, h, k) == (if route(
            n,
            id,
            h,
            k,
        ).last() == at {
            leaf_lookup(leaf->Leaf_keys, leaf->chains, k)
        } else {
            lookup(n, id, h, k)
        }) by {
            lemma_upper_parts(keys, k);
            let u = upper(keys, k);
            let way = route(n, kids[u], g, k);
            crate::btree::paged::lemma_route(
                n,
                kids[u],
                g,
                low(keys, lo, u),
                high(keys, hi, u),
                kid_after(n, kids, g, after, u),
                k,
            );
            assert(route(n, id, h, k).last() == way.last());
            if u == i {
                assert(lookup(n2, kids[i], g, k) == (if way.last() == at {
                    leaf_lookup(leaf->Leaf_keys, leaf->chains, k)
                } else {
                    lookup(n, kids[i], g, k)
                }));
            } else {
                assert(owns(n, kids[u], g, way[g as int]));
                if u < i {
                    assert(!(owns(n, kids[u], g, at) && owns(n, kids[i], g, at)));
                } else {
                    assert(!(owns(n, kids[i], g, at) && owns(n, kids[u], g, at)));
                }
            }
        }
    }
}

/// The node is the same but for the versions of a leaf, each of which went through `f`.
pub open spec fn node_mapped(
    old: Node,
    new: Node,
    f: spec_fn(Seq<Version>) -> Seq<Version>,
) -> bool {
    match old {
        Node::Internal { .. } => new == old,
        Node::Leaf { version, keys, chains, next } => {
            &&& new is Leaf
            &&& new->Leaf_keys == keys
            &&& new->chains == chains.map_values(f)
            &&& new->next == next
        },
    }
}

/// A tree stays one when the versions of all its keys go through `f`.
pub proof fn lemma_mapped(
    n: Nodes,
    n2: Nodes,
    id: u64,
    h: nat,
    lo: Option<Seq<u8>>,
    hi: Option<Seq<u8>>,
    after: u64,
    f: spec_fn(Seq<Version>) -> Seq<Version>,
)
    requires
        tree(n, id, h, lo, hi, after),
        forall|vs: Seq<Version>| vs.len() > 0 ==> (#[trigger] f(vs)).len() > 0,
        forall|p: u64| #[trigger]
            owns(n, id, h, p) ==> n2.contains_key(p) && node_mapped(n[p], n2[p], f),
    ensures
        tree(n2, id, h, lo, hi, after),
        forall|p: u64| #[trigger] owns(n2, id, h, p) == owns(n, id, h, p),
        first_leaf(n2, id, h) == first_leaf(n, id, h),
        forall|k: Seq<u8>| #[trigger]
            lookup(n2, id, h, k) == (match lookup(n, id, h, k) {
                Some(vs) => Some(f(vs)),
                None => None,
            }),
    decreases h,
{
    assert(owns(n, id, h, id));
    if h == 0 {
        let keys = n[id]->Leaf_keys;
        let chains = n[id]->chains;
        assert(node_mapped(n[id], n2[id], f));
        assert forall|k: Seq<u8>| #[trigger] lookup(n2, id, h, k) == (match lookup(n, id, h, k) {
            Some(vs) => Some(f(vs)),
            None => None,
        }) by {
            crate::bytemap::lemma_rank_parts(keys, k);
        }
        assert forall|i: int| 0 <= i < chains.len() implies (#[trigger] chains.map_values(
            f,
        )[i]).len() > 0 by {
            assert(chains[i].len() > 0);
        }
    } else {
        let keys = n[id]->Internal_keys;
        let kids = n[id]->kids;
        let g = (h - 1) as nat;
        assert(node_mapped(n[id], n2[id], f));
        assert forall|j: int| 0 <= j < kids.len() implies {
            &&& tree(
                n2,
                #[trigger] kids[j],
                g,
                low(keys, lo, j),
                high(keys, hi, j),
                kid_after(n, kids, g, after, j),
            )
            &&& kid_mapped(n, n2, kids[j], g, f)
        } by {
            assert forall|p: u64| #[trigger] owns(n, kids[j], g, p) implies n2.contains_key(p)
                && node_mapped(n[p], n2[p], f) by {
                assert(owns(n, id, h, p));
            }
            lemma_mapped(
                n,
                n2,
                kids[j],
                g,
                low(keys, lo, j),
                high(keys, hi, j),
                kid_after(n, kids, g, after, j),
                f,
            );
            reveal(kid_mapped);
        }
        assert forall|j: int| 0 <= j < kids.len() implies tree(
            n2,
            #[trigger] kids[j],
            g,
            low(keys, lo, j),
            high(keys, hi, j),
            kid_after(n2, kids, g, after, j),
        ) by {
            reveal(kid_after);
            if j + 1 < kids.len() {
                assert(kid_mapped(n, n2, kids[j + 1], g, f));
                reveal(kid_mapped);
            }
        }
        assert forall|j: int| 0 <= j < kids.len() implies !owns(n2, #[trigger] kids[j], g, id) by {
            reveal(kid_mapped);
            assert(owns(n2, kids[j], g, id) == owns(n, kids[j], g, id));
        }
        assert forall|a: int, b: int, p: u64| 0 <= a < b < kids.len() implies !(#[trigger] owns(
            n2,
            kids[a],
            g,
            p,
        ) && #[trigger] owns(n2, kids[b], g, p)) by {
            reveal(kid_mapped);
            assert(owns(n2, kids[a], g, p) == owns(n, kids[a], g, p));
            assert(owns(n2, kids[b], g, p) == owns(n, kids[b], g, p));
        }
        assert forall|p: u64| #[trigger] owns(n2, id, h, p) == owns(n, id, h, p) by {
            reveal(kid_mapped);
            if owns(n2, id, h, p) && p != id {
                let j = choose|j: int| 0 <= j < kids.len() && owns(n2, #[trigger] kids[j], g, p);
                assert(owns(n, kids[j], g, p));
            }
            if owns(n, id, h, p) && p != id {
                let j = choose|j: int| 0 <= j < kids.len() && owns(n, #[trigger] kids[j], g, p);
                assert(owns(n2, kids[j], g, p));
            }
        }
        assert(first_leaf(n2, kids[0], g) == first_leaf(n, kids[0], g)) by {
            reveal(kid_mapped);
        }
        assert forall|k: Seq<u8>| #[trigger] lookup(n2, id, h, k) == (match lookup(n, id, h, k) {
            Some(vs) => Some(f(vs)),
            None => None,
        }) by {
            lemma_upper_parts(keys, k);
            let u = upper(keys, k);
            assert(kid_mapped(n, n2, kids[u], g, f));
            reveal(kid_mapped);
            assert(n2[id] == n[id]);
            assert(lookup(n2, kids[u], g, k) == (match lookup(n, kids[u], g, k) {
                Some(vs) => Some(f(vs)),
                None => None,
            }));
        }
    }
}

#[verifier::opaque]
spec fn kid_mapped(
    n: Nodes,
    n2: Nodes,
    id: u64,
    h: nat,
    f: spec_fn(Seq<Version>) -> Seq<Version>,
) -> bool {
    &&& forall|p: u64| #[trigger] owns(n2, id, h, p) == owns(n, id, h, p)
    &&& first_leaf(n2, id, h) == first_leaf(n, id, h)
    &&& forall|k: Seq<u8>| #[trigger]
        lookup(n2, id, h, k) == (match lookup(n, id, h, k) {
            Some(vs) => Some(f(vs)),
            None => None,
        })
}

} // verus!

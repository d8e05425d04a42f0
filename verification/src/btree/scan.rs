//! That scans of a paged B-tree leave out nothing.
use crate::btree::cursor::{
    is_entry, leftmost, seek_target, shown, walk, walk_back, PagedBTreeCursor, ScanStop,
};
use crate::btree::leaves::{
    flat_chains, flat_keys, leaves, leaves_upto, lemma_flat_add, lemma_leaves, lemma_lookup_flat,
    lemma_upto_sorted, linked,
};
use crate::btree::memory::lemma_past_end;
use crate::btree::node::Node;
use crate::btree::paged::{lemma_route, nodes, route, PagedBTree};
use crate::btree::stats::{empty_sums, entry_count, law_tree_is_summed_by_its_leaves};
use crate::btree::tree::{
    high, kid_after, lemma_leaf_entry, lemma_leaf_found, lemma_upper_parts, low, tree, upper, Nodes,
};
use crate::btree::writer::{hits, place_of, scan_hits, scan_start};
use crate::bytemap::{ascending, lemma_rank, lemma_rank_parts, rank};
use crate::bytes::{
    has_prefix, lemma_lex_asymmetric, lemma_lex_irreflexive, lemma_lex_total, lemma_lex_transitive,
    lex_le, lex_lt,
};
use crate::pager::Pager;
use crate::txn::{visible_at, Version};
use crate::types::{Bound, LogSequenceNumber, ScanBounds};
use vstd::prelude::*;

verus! {

/// How many keys stand in the leaves before one.
spec fn offset(n: Nodes, ls: Seq<u64>, leaf: int) -> int {
    flat_keys(n, ls.take(leaf)).len() as int
}

/// The keys of a leaf stand behind those of the leaves before it.
#[verifier::spinoff_prover]
proof fn lemma_offset(n: Nodes, ls: Seq<u64>, after: u64, leaf: int)
    requires
        linked(n, ls, after),
        0 <= leaf < ls.len(),
    ensures
        offset(n, ls, leaf + 1) == offset(n, ls, leaf) + n[ls[leaf]]->Leaf_keys.len(),
        offset(n, ls, leaf + 1) <= flat_keys(n, ls).len(),
        flat_chains(n, ls.take(leaf)).len() == offset(n, ls, leaf),
        forall|pos: int|
            0 <= pos < n[ls[leaf]]->Leaf_keys.len() ==> #[trigger] n[ls[leaf]]->Leaf_keys[pos]
                == flat_keys(n, ls)[offset(n, ls, leaf) + pos] && n[ls[leaf]]->chains[pos]
                == flat_chains(n, ls)[offset(n, ls, leaf) + pos],
    decreases leaf,
{
    let a = ls.take(leaf);
    let b = ls.take(leaf + 1);
    let c = ls.skip(leaf + 1);
    assert(b.drop_last() =~= a);
    assert(b.last() == ls[leaf]);
    assert(b + c =~= ls);
    lemma_flat_add(n, b, c);
    if leaf > 0 {
        lemma_offset(n, ls, after, leaf - 1);
        assert(n[ls[leaf - 1]]->Leaf_keys.len() == n[ls[leaf - 1]]->chains.len());
        assert(a.drop_last() =~= ls.take(leaf - 1));
        assert(a.last() == ls[leaf - 1]);
    } else {
        assert(a =~= Seq::empty());
    }
    let keys = n[ls[leaf]]->Leaf_keys;
    let chains = n[ls[leaf]]->chains;
    assert(keys.len() == chains.len());
    assert(flat_keys(n, b) == flat_keys(n, a) + keys);
    assert(flat_chains(n, b) == flat_chains(n, a) + chains);
    assert(flat_chains(n, a).len() == flat_keys(n, a).len());
    assert forall|pos: int| 0 <= pos < keys.len() implies #[trigger] keys[pos] == flat_keys(n, ls)[
    offset(n, ls, leaf) + pos] && chains[pos] == flat_chains(n, ls)[offset(n, ls, leaf) + pos] by {
        let at = offset(n, ls, leaf) + pos;
        assert(flat_keys(n, b)[at] == keys[pos]);
        assert(flat_chains(n, b)[at] == chains[pos]);
        assert(flat_keys(n, ls)[at] == flat_keys(n, b)[at]);
        assert(flat_chains(n, ls)[at] == flat_chains(n, b)[at]);
    }
}

/// What a walk passes is not seen.
proof fn lemma_walk(
    n: Nodes,
    ls: Seq<u64>,
    after: u64,
    leaf: int,
    pos: int,
    bounds: ScanBounds,
    lsn: LogSequenceNumber,
)
    requires
        linked(n, ls, after),
        0 <= leaf <= ls.len(),
        0 <= pos,
        leaf < ls.len() ==> pos <= n[ls[leaf]]->Leaf_keys.len(),
        leaf == ls.len() ==> pos == 0,
    ensures
        match walk(n, ls, leaf, pos, bounds, lsn) {
            ScanStop::Found(l, p) => {
                let g = offset(n, ls, l) + p;
                &&& leaf <= l < ls.len()
                &&& 0 <= p < n[ls[l]]->Leaf_keys.len()
                &&& offset(n, ls, leaf) + pos <= g < flat_keys(n, ls).len()
                &&& bounds.admits(flat_keys(n, ls)[g])
                &&& shown(flat_chains(n, ls)[g], lsn) is Some
                &&& n[ls[l]]->Leaf_keys[p] == flat_keys(n, ls)[g]
                &&& n[ls[l]]->chains[p] == flat_chains(n, ls)[g]
                &&& forall|j: int|
                    offset(n, ls, leaf) + pos <= j < g ==> shown(
                        #[trigger] flat_chains(n, ls)[j],
                        lsn,
                    ) is None
            },
            ScanStop::OutOfBounds(l, p) => {
                let g = offset(n, ls, l) + p;
                &&& offset(n, ls, leaf) + pos <= g < flat_keys(n, ls).len()
                &&& !bounds.admits(flat_keys(n, ls)[g])
                &&& forall|j: int|
                    offset(n, ls, leaf) + pos <= j < g ==> shown(
                        #[trigger] flat_chains(n, ls)[j],
                        lsn,
                    ) is None
            },
            ScanStop::End => forall|j: int|
                offset(n, ls, leaf) + pos <= j < flat_keys(n, ls).len() ==> shown(
                    #[trigger] flat_chains(n, ls)[j],
                    lsn,
                ) is None,
        },
    decreases ls.len() - leaf, n[ls[leaf]]->Leaf_keys.len() - pos,
{
    if leaf >= ls.len() {
        assert(ls.take(leaf) =~= ls);
    } else {
        lemma_offset(n, ls, after, leaf);
        let keys = n[ls[leaf]]->Leaf_keys;
        if pos >= keys.len() {
            lemma_walk(n, ls, after, leaf + 1, 0, bounds, lsn);
        } else {
            let g = offset(n, ls, leaf) + pos;
            assert(keys[pos] == flat_keys(n, ls)[g]);
            if bounds.admits(keys[pos]) && shown(n[ls[leaf]]->chains[pos], lsn) is None {
                lemma_walk(n, ls, after, leaf, pos + 1, bounds, lsn);
            }
        }
    }
}

/// The leaves of the children from `u` on, but for the first `u`, hold no key before the separator
/// in front of them.
proof fn lemma_later_kids(
    n: Nodes,
    id: u64,
    h: nat,
    lo: Option<Seq<u8>>,
    hi: Option<Seq<u8>>,
    after: u64,
    u: int,
    k: int,
) -> (rest: Seq<u64>)
    requires
        tree(n, id, h, lo, hi, after),
        h > 0,
        1 <= u <= k <= n[id]->kids.len(),
    ensures
        leaves_upto(n, n[id]->kids, (h - 1) as nat, k) == leaves_upto(
            n,
            n[id]->kids,
            (h - 1) as nat,
            u,
        ) + rest,
        forall|i: int|
            0 <= i < flat_keys(n, rest).len() ==> lex_le(
                n[id]->Internal_keys[u - 1],
                #[trigger] flat_keys(n, rest)[i],
            ),
    decreases k,
{
    let g = (h - 1) as nat;
    let keys = n[id]->Internal_keys;
    let kids = n[id]->kids;
    if u == k {
        let rest: Seq<u64> = Seq::empty();
        assert(leaves_upto(n, kids, g, k) + rest =~= leaves_upto(n, kids, g, u));
        rest
    } else {
        let before = lemma_later_kids(n, id, h, lo, hi, after, u, k - 1);
        let last = leaves(n, kids[k - 1], g);
        let rest = before + last;
        assert(tree(
            n,
            kids[k - 1],
            g,
            low(keys, lo, k - 1),
            high(keys, hi, k - 1),
            kid_after(n, kids, g, after, k - 1),
        ));
        lemma_leaves(
            n,
            kids[k - 1],
            g,
            low(keys, lo, k - 1),
            high(keys, hi, k - 1),
            kid_after(n, kids, g, after, k - 1),
        );
        lemma_flat_add(n, before, last);
        assert(leaves_upto(n, kids, g, k) =~= leaves_upto(n, kids, g, u) + rest);
        let s = keys[u - 1];
        let t = keys[k - 2];
        assert(lex_le(s, t)) by {
            if u - 1 < k - 2 {
                assert(lex_le(keys[u - 1], keys[k - 2]));
            }
        }
        assert forall|i: int| 0 <= i < flat_keys(n, rest).len() implies lex_le(
            s,
            #[trigger] flat_keys(n, rest)[i],
        ) by {
            let a = flat_keys(n, before);
            if i < a.len() {
                assert(flat_keys(n, rest)[i] == a[i]);
            } else {
                let x = flat_keys(n, last)[i - a.len()];
                assert(flat_keys(n, rest)[i] == x);
                assert(lex_le(t, x));
                if s != t && t != x {
                    lemma_lex_transitive(s, t, x);
                }
            }
        }
        rest
    }
}

/// The rank of a key that belongs into the middle one of three parts.
proof fn lemma_rank_in_middle(
    a: Seq<Seq<u8>>,
    b: Seq<Seq<u8>>,
    c: Seq<Seq<u8>>,
    key: Seq<u8>,
)
    requires
        ascending(b),
        forall|i: int| 0 <= i < a.len() ==> lex_lt(#[trigger] a[i], key),
        forall|i: int| 0 <= i < c.len() ==> !lex_lt(#[trigger] c[i], key),
    ensures
        rank((a + b) + c, key) == a.len() + rank(b, key),
{
    let all = (a + b) + c;
    lemma_rank_parts(b, key);
    let p = a.len() + rank(b, key);
    assert forall|i: int| 0 <= i < p implies lex_lt(#[trigger] all[i], key) by {
        if i < a.len() {
            assert(all[i] == a[i]);
        } else {
            assert(all[i] == b[i - a.len()]);
        }
    }
    assert forall|i: int| p <= i < all.len() implies !lex_lt(#[trigger] all[i], key) by {
        if i < a.len() + b.len() {
            assert(all[i] == b[i - a.len()]);
        } else {
            assert(all[i] == c[i - a.len() - b.len()]);
        }
    }
    lemma_rank(all, key, p);
}

/// The leaves before those of the kid that a key leads to hold smaller keys, and those behind
/// them hold none.
#[verifier::rlimit(40)]
#[verifier::spinoff_prover]
proof fn lemma_around(
    n: Nodes,
    id: u64,
    h: nat,
    lo: Option<Seq<u8>>,
    hi: Option<Seq<u8>>,
    after: u64,
    key: Seq<u8>,
) -> (rest: Seq<u64>)
    requires
        tree(n, id, h, lo, hi, after),
        h > 0,
    ensures
        ({
            let g = (h - 1) as nat;
            let kids = n[id]->kids;
            let u = upper(n[id]->Internal_keys, key);
            let a = leaves_upto(n, kids, g, u);
            &&& leaves(n, id, h) == (a + leaves(n, kids[u], g)) + rest
            &&& forall|i: int|
                0 <= i < flat_keys(n, a).len() ==> lex_lt(#[trigger] flat_keys(n, a)[i], key)
            &&& forall|i: int|
                0 <= i < flat_keys(n, rest).len() ==> !lex_lt(
                    #[trigger] flat_keys(n, rest)[i],
                    key,
                )
        }),
{
    let g = (h - 1) as nat;
    let keys = n[id]->Internal_keys;
    let kids = n[id]->kids;
    lemma_upper_parts(keys, key);
    let u = upper(keys, key);
    let a = leaves_upto(n, kids, g, u);
    let b = leaves(n, kids[u], g);
    let rest = lemma_later_kids(n, id, h, lo, hi, after, u + 1, kids.len() as int);
    assert(leaves_upto(n, kids, g, u + 1) == a + b);
    assert(leaves(n, id, h) == (a + b) + rest);
    let fa = flat_keys(n, a);
    let fr = flat_keys(n, rest);
    if u > 0 {
        lemma_upto_sorted(n, id, h, lo, hi, after, u);
        assert forall|i: int| 0 <= i < fa.len() implies lex_lt(#[trigger] fa[i], key) by {
            assert(lex_lt(fa[i], keys[u - 1]));
            assert(lex_le(keys[u - 1], key));
            if keys[u - 1] != key {
                lemma_lex_transitive(fa[i], keys[u - 1], key);
            }
        }
    } else {
        assert(a =~= Seq::empty());
    }
    assert forall|i: int| 0 <= i < fr.len() implies !lex_lt(#[trigger] fr[i], key) by {
        let x = fr[i];
        assert(lex_le(keys[u], x));
        assert(lex_lt(key, keys[u]));
        if keys[u] != x {
            lemma_lex_transitive(key, keys[u], x);
        }
        lemma_lex_asymmetric(key, x);
    }
    rest
}

/// The place of a key in its leaf parts the keys before it from the others in the whole tree.
#[verifier::rlimit(40)]
#[verifier::spinoff_prover]
proof fn lemma_place(
    n: Nodes,
    id: u64,
    h: nat,
    lo: Option<Seq<u8>>,
    hi: Option<Seq<u8>>,
    after: u64,
    key: Seq<u8>,
) -> (leaf: int)
    requires
        tree(n, id, h, lo, hi, after),
    ensures
        0 <= leaf < leaves(n, id, h).len(),
        leaves(n, id, h)[leaf] == route(n, id, h, key).last(),
        offset(n, leaves(n, id, h), leaf) + rank(
            n[leaves(n, id, h)[leaf]]->Leaf_keys,
            key,
        ) == rank(flat_keys(n, leaves(n, id, h)), key),
    decreases h,
{
    let ls = leaves(n, id, h);
    lemma_leaves(n, id, h, lo, hi, after);
    if h == 0 {
        assert(ls.take(0) =~= Seq::empty());
        lemma_offset(n, ls, after, 0);
        assert(ls.take(1) =~= ls);
        assert(flat_keys(n, ls) =~= n[id]->Leaf_keys);
        0
    } else {
        let g = (h - 1) as nat;
        let keys = n[id]->Internal_keys;
        let kids = n[id]->kids;
        lemma_upper_parts(keys, key);
        let u = upper(keys, key);
        let kid = kids[u];
        let a = leaves_upto(n, kids, g, u);
        let b = leaves(n, kid, g);
        let lo_b = low(keys, lo, u);
        let hi_b = high(keys, hi, u);
        let after_b = kid_after(n, kids, g, after, u);
        assert(tree(n, kid, g, lo_b, hi_b, after_b));
        let inner = lemma_place(n, kid, g, lo_b, hi_b, after_b, key);
        lemma_leaves(n, kid, g, lo_b, hi_b, after_b);
        let rest = lemma_around(n, id, h, lo, hi, after, key);
        lemma_flat_add(n, a, b);
        lemma_flat_add(n, a + b, rest);
        let fa = flat_keys(n, a);
        let fb = flat_keys(n, b);
        let fr = flat_keys(n, rest);
        assert(flat_keys(n, ls) == (fa + fb) + fr);
        lemma_rank_in_middle(fa, fb, fr, key);
        let leaf = a.len() + inner;
        assert(ls[leaf] == b[inner]);
        assert(ls.take(leaf) =~= a + b.take(inner));
        lemma_flat_add(n, a, b.take(inner));
        assert(route(n, id, h, key).last() == route(n, kid, g, key).last());
        leaf
    }
}

/// What a tree holds of the keys at the positions of its leaves.
proof fn lemma_entries(table: PagedBTree, pager: Pager)
    requires
        table.wf(&pager),
    ensures
        ({
            let n = nodes(pager.pages());
            let ls = leaves(n, table.root_page_id.0, table.height@);
            &&& linked(n, ls, 0)
            &&& ls.len() > 0
            &&& ascending(flat_keys(n, ls))
            &&& forall|i: int|
                0 <= i < flat_keys(n, ls).len() ==> table.find(
                    &pager,
                    #[trigger] flat_keys(n, ls)[i],
                ) == Some(flat_chains(n, ls)[i])
            &&& forall|x: Seq<u8>| #[trigger]
                table.find(&pager, x) is Some ==> flat_keys(n, ls).contains(x)
        }),
{
    let n = nodes(pager.pages());
    let root = table.root_page_id.0;
    let h = table.height@;
    let ls = leaves(n, root, h);
    let keys = flat_keys(n, ls);
    let chains = flat_chains(n, ls);
    lemma_leaves(n, root, h, None, None, 0);
    assert forall|i: int| 0 <= i < keys.len() implies table.find(&pager, #[trigger] keys[i])
        == Some(chains[i]) by {
        lemma_lookup_flat(n, root, h, None, None, 0, keys[i]);
        lemma_leaf_entry(keys, chains, i);
    }
    assert forall|x: Seq<u8>| #[trigger] table.find(&pager, x) is Some implies keys.contains(x) by {
        lemma_lookup_flat(n, root, h, None, None, 0, x);
        let i = lemma_leaf_found(keys, chains, x);
        assert(keys[i] == x);
    }
    if h > 0 {
        lemma_place(n, root, h, None, None, 0, Seq::empty());
    }
}

/// The number of entries is that of the keys that the tree knows.
pub proof fn law_entries_are_keys(table: PagedBTree, pager: Pager)
    requires
        table.wf(&pager),
    ensures
        ({
            let known = Set::new(|k: Seq<u8>| table.find(&pager, k) is Some);
            &&& known.finite()
            &&& entry_count(
                nodes(pager.pages()),
                table.root_page_id.0,
                table.height@,
            ) == known.len()
        }),
{
    let n = nodes(pager.pages());
    let (root, h) = (table.root_page_id.0, table.height@);
    let keys = flat_keys(n, leaves(n, root, h));
    let known = Set::new(|k: Seq<u8>| table.find(&pager, k) is Some);
    lemma_entries(table, pager);
    law_tree_is_summed_by_its_leaves(empty_sums(), n, root, h, None, None, 0, 0, 0);
    assert(keys.no_duplicates()) by {
        assert forall|i: int, j: int| 0 <= i < j < keys.len() implies keys[i] != keys[j] by {
            assert(lex_lt(keys[i], keys[j]));
            lemma_lex_irreflexive(keys[i]);
        }
    }
    assert(keys.to_set() =~= known) by {
        assert forall|k: Seq<u8>| known.contains(k) implies keys.to_set().contains(k) by {
            assert(keys.contains(k));
        }
        assert forall|k: Seq<u8>| keys.to_set().contains(k) implies known.contains(k) by {
            let i = keys.index_of(k);
            assert(table.find(&pager, keys[i]) is Some);
        }
    }
    vstd::seq_lib::seq_to_set_is_finite(keys);
    keys.unique_seq_to_set();
}

/// A key that lies within the bounds and that a reader sees.
pub open spec fn is_visible(
    table: PagedBTree,
    pager: Pager,
    bounds: ScanBounds,
    lsn: LogSequenceNumber,
    key: Seq<u8>,
) -> bool {
    &&& bounds.admits(key)
    &&& table.find(&pager, key) is Some
    &&& shown(table.find(&pager, key)->Some_0, lsn) is Some
}

/// Moving forward from a key within bounds reaches the next key within bounds that the reader
/// sees, and stops only where there is none: no key is left out.
#[verifier::rlimit(60)]
#[verifier::spinoff_prover]
pub proof fn law_next_leaves_out_nothing(
    table: PagedBTree,
    pager: Pager,
    bounds: ScanBounds,
    lsn: LogSequenceNumber,
    leaf: int,
    pos: int,
)
    requires
        table.wf(&pager),
        ({
            let n = nodes(pager.pages());
            let ls = leaves(n, table.root_page_id.0, table.height@);
            &&& 0 <= leaf < ls.len()
            &&& 0 <= pos < n[ls[leaf]]->Leaf_keys.len()
            &&& bounds.admits(n[ls[leaf]]->Leaf_keys[pos])
        }),
    ensures
        ({
            let n = nodes(pager.pages());
            let ls = leaves(n, table.root_page_id.0, table.height@);
            let key = n[ls[leaf]]->Leaf_keys[pos];
            match walk(n, ls, leaf, pos + 1, bounds, lsn) {
                ScanStop::Found(l, p) => {
                    let next = n[ls[l]]->Leaf_keys[p];
                    &&& lex_lt(key, next)
                    &&& is_visible(table, pager, bounds, lsn, next)
                    &&& forall|x: Seq<u8>|
                        lex_lt(key, x) && lex_lt(x, next) ==> !#[trigger] is_visible(
                            table,
                            pager,
                            bounds,
                            lsn,
                            x,
                        )
                },
                _ => forall|x: Seq<u8>|
                    lex_lt(key, x) ==> !#[trigger] is_visible(table, pager, bounds, lsn, x),
            }
        }),
{
    let n = nodes(pager.pages());
    let ls = leaves(n, table.root_page_id.0, table.height@);
    let keys = flat_keys(n, ls);
    let chains = flat_chains(n, ls);
    let key = n[ls[leaf]]->Leaf_keys[pos];
    lemma_entries(table, pager);
    lemma_offset(n, ls, 0, leaf);
    lemma_walk(n, ls, 0, leaf, pos + 1, bounds, lsn);
    let f = offset(n, ls, leaf) + pos;
    assert(keys[f] == key);
    let stop = walk(n, ls, leaf, pos + 1, bounds, lsn);
    if let ScanStop::Found(l, p) = stop {
        let g = offset(n, ls, l) + p;
        assert(lex_lt(keys[f], keys[g]));
        assert(table.find(&pager, keys[g]) == Some(chains[g]));
    }
    assert forall|x: Seq<u8>|
        lex_lt(key, x) && (stop matches ScanStop::Found(l, p) ==> lex_lt(
            x,
            n[ls[l]]->Leaf_keys[p],
        )) implies !#[trigger] is_visible(table, pager, bounds, lsn, x) by {
        if is_visible(table, pager, bounds, lsn, x) {
            let i = keys.index_of(x);
            assert(keys[i] == x);
            assert(table.find(&pager, keys[i]) == Some(chains[i]));
            lemma_lex_irreflexive(x);
            if i <= f {
                if i < f {
                    assert(lex_lt(keys[i], keys[f]));
                    lemma_lex_asymmetric(x, key);
                }
                assert(false);
            }
            match stop {
                ScanStop::Found(l, p) => {
                    let g = offset(n, ls, l) + p;
                    if i >= g {
                        if g < i {
                            assert(lex_lt(keys[g], keys[i]));
                            lemma_lex_asymmetric(keys[g], x);
                        }
                        assert(false);
                    }
                    assert(shown(chains[i], lsn) is None);
                },
                ScanStop::OutOfBounds(l, p) => {
                    let g = offset(n, ls, l) + p;
                    if i < g {
                        assert(shown(chains[i], lsn) is None);
                    } else if i > g {
                        assert(lex_lt(keys[f], keys[g]));
                        assert(lex_lt(keys[g], keys[i]));
                        lemma_past_end(bounds, keys[f], keys[g], keys[i]);
                    }
                },
                ScanStop::End => {
                    assert(shown(chains[i], lsn) is None);
                },
            }
        }
    }
}

/// The key comes after the start of the bounds.
spec fn is_past_start(bounds: ScanBounds, key: Seq<u8>) -> bool {
    match bounds {
        ScanBounds::All => true,
        ScanBounds::Prefix(p) => lex_le(p@, key),
        ScanBounds::Range { start, end } => start.admits_from(key),
    }
}

/// The cursor shows the first key within its bounds that its reader sees, or none where there is
/// none.
pub open spec fn shows_first(cursor: &PagedBTreeCursor) -> bool {
    let table = *cursor.table;
    let pager = *cursor.pager;
    let bounds = cursor.bounds;
    let lsn = cursor.snapshot_lsn;
    if cursor.exhausted {
        forall|x: Seq<u8>| !#[trigger] is_visible(table, pager, bounds, lsn, x)
    } else {
        &&& cursor.current_key is Some
        &&& cursor.current_value is Some
        &&& is_visible(table, pager, bounds, lsn, cursor.current_key->Some_0@)
        &&& Some(cursor.current_value->Some_0@) == shown(
            table.find(&pager, cursor.current_key->Some_0@)->Some_0,
            lsn,
        )
        &&& forall|x: Seq<u8>|
            lex_lt(x, cursor.current_key->Some_0@) ==> !#[trigger] is_visible(
                table,
                pager,
                bounds,
                lsn,
                x,
            )
    }
}

/// A walk from a place that parts the keys before the bounds from the others finds the first key.
#[verifier::rlimit(60)]
#[verifier::spinoff_prover]
proof fn lemma_shows_first(cursor: &PagedBTreeCursor, leaf: int, pos: int)
    requires
        cursor.wf(),
        0 <= leaf < cursor.leaves().len(),
        0 <= pos <= cursor.nodes()[cursor.leaves()[leaf]]->Leaf_keys.len(),
        cursor.stopped_at(
            walk(
                cursor.nodes(),
                cursor.leaves(),
                leaf,
                pos,
                cursor.bounds,
                cursor.snapshot_lsn,
            ),
        ),
        ({
            let keys = flat_keys(cursor.nodes(), cursor.leaves());
            let p = offset(cursor.nodes(), cursor.leaves(), leaf) + pos;
            &&& forall|i: int| 0 <= i < p ==> !cursor.bounds.admits(#[trigger] keys[i])
            &&& forall|i: int|
                p <= i < keys.len() ==> is_past_start(cursor.bounds, #[trigger] keys[i])
        }),
    ensures
        shows_first(cursor),
{
    let table = *cursor.table;
    let pager = *cursor.pager;
    let bounds = cursor.bounds;
    let lsn = cursor.snapshot_lsn;
    let n = cursor.nodes();
    let ls = cursor.leaves();
    let keys = flat_keys(n, ls);
    let chains = flat_chains(n, ls);
    let p = offset(n, ls, leaf) + pos;
    lemma_entries(table, pager);
    lemma_walk(n, ls, 0, leaf, pos, bounds, lsn);
    let stop = walk(n, ls, leaf, pos, bounds, lsn);
    if let ScanStop::Found(l, q) = stop {
        let g = offset(n, ls, l) + q;
        assert(table.find(&pager, keys[g]) == Some(chains[g]));
    }
    assert forall|x: Seq<u8>|
        (stop matches ScanStop::Found(l, q) ==> lex_lt(x, n[ls[l]]->Leaf_keys[q])) implies
        !#[trigger] is_visible(table, pager, bounds, lsn, x) by {
        if is_visible(table, pager, bounds, lsn, x) {
            let i = keys.index_of(x);
            assert(keys[i] == x);
            assert(table.find(&pager, keys[i]) == Some(chains[i]));
            lemma_lex_irreflexive(x);
            assert(i >= p);
            match stop {
                ScanStop::Found(l, q) => {
                    let g = offset(n, ls, l) + q;
                    if i > g {
                        assert(lex_lt(keys[g], keys[i]));
                        lemma_lex_asymmetric(keys[g], x);
                    }
                    assert(shown(chains[i], lsn) is None);
                },
                ScanStop::OutOfBounds(l, q) => {
                    let g = offset(n, ls, l) + q;
                    if i < g {
                        assert(shown(chains[i], lsn) is None);
                    } else if i > g {
                        assert(lex_lt(keys[g], keys[i]));
                        assert(is_past_start(bounds, keys[g]));
                        lemma_past_end(
                            bounds,
                            match bounds {
                                ScanBounds::Prefix(prefix) => prefix@,
                                _ => keys[g],
                            },
                            keys[g],
                            keys[i],
                        );
                    }
                },
                ScanStop::End => {
                    assert(shown(chains[i], lsn) is None);
                },
            }
        }
    }
}

/// A key before a prefix does not start with it.
proof fn lemma_before_prefix(key: Seq<u8>, prefix: Seq<u8>)
    requires
        lex_lt(key, prefix),
    ensures
        !has_prefix(key, prefix),
{
    let s = choose|s: int| crate::bytes::lex_split(key, prefix, s);
    if has_prefix(key, prefix) {
        assert(key.take(prefix.len() as int)[s] == key[s]);
    }
}

/// The bounds leave the front open.
spec fn is_open_front(bounds: ScanBounds) -> bool {
    match bounds {
        ScanBounds::All => true,
        ScanBounds::Prefix(_) => false,
        ScanBounds::Range { start, end } => start is Unbounded,
    }
}

/// A place parts the keys before the bounds from the others.
spec fn parts_keys(n: Nodes, ls: Seq<u64>, leaf: int, pos: int, bounds: ScanBounds) -> bool {
    let keys = flat_keys(n, ls);
    let p = offset(n, ls, leaf) + pos;
    &&& 0 <= leaf < ls.len()
    &&& 0 <= pos <= n[ls[leaf]]->Leaf_keys.len()
    &&& forall|i: int| 0 <= i < p ==> !bounds.admits(#[trigger] keys[i])
    &&& forall|i: int| p <= i < keys.len() ==> is_past_start(bounds, #[trigger] keys[i])
}

/// Where a scan starts parts the keys, and it starts nowhere only where it shows nothing or there
/// is no way to the front.
#[verifier::rlimit(40)]
#[verifier::spinoff_prover]
proof fn lemma_start(table: PagedBTree, pager: Pager, bounds: ScanBounds, lsn: LogSequenceNumber)
    requires
        table.wf(&pager),
    ensures
        ({
            let n = nodes(pager.pages());
            let ls = leaves(n, table.root_page_id.0, table.height@);
            match scan_start(table, pager, bounds) {
                Some((leaf, pos)) => parts_keys(n, ls, leaf, pos, bounds),
                None => is_open_front(bounds) && leftmost(
                    n,
                    table.root_page_id.0,
                    table.height@,
                ) is None || forall|x: Seq<u8>| !#[trigger] is_visible(table, pager, bounds, lsn, x),
            }
        }),
{
    let n = nodes(pager.pages());
    let root = table.root_page_id.0;
    let h = table.height@;
    let ls = leaves(n, root, h);
    let keys = flat_keys(n, ls);
    lemma_entries(table, pager);
    lemma_leaves(n, root, h, None, None, 0);
    let front = match bounds {
        ScanBounds::All => None,
        ScanBounds::Prefix(p) => Some(p@),
        ScanBounds::Range { start, end } => match start {
            Bound::Included(k) => Some(k@),
            Bound::Excluded(k) => Some(k@),
            Bound::Unbounded => None,
        },
    };
    if front is None {
        assert(ls.take(0) =~= Seq::empty());
    } else {
        let k = front->Some_0;
        let leaf = lemma_place(n, root, h, None, None, 0, k);
        assert(ls.index_of(ls[leaf]) == leaf);
        let here = n[ls[leaf]]->Leaf_keys;
        let pos = rank(here, k);
        let p = rank(keys, k);
        lemma_rank_parts(keys, k);
        lemma_rank_parts(here, k);
        lemma_lex_irreflexive(k);
        assert(place_of(table, pager, k) == (leaf, pos));
        match bounds {
            ScanBounds::Prefix(prefix) => {
                assert(has_prefix(k, k)) by {
                    assert(k.take(k.len() as int) =~= k);
                }
                assert forall|i: int| 0 <= i < p implies !bounds.admits(#[trigger] keys[i]) by {
                    lemma_before_prefix(keys[i], k);
                }
                assert forall|i: int| p <= i < keys.len() implies is_past_start(
                    bounds,
                    #[trigger] keys[i],
                ) by {
                    lemma_lex_total(keys[i], k);
                }
            },
            ScanBounds::Range { start: Bound::Included(s), end } => {
                assert forall|i: int| 0 <= i < p implies !bounds.admits(#[trigger] keys[i]) by {
                    lemma_lex_asymmetric(keys[i], k);
                }
                assert forall|i: int| p <= i < keys.len() implies is_past_start(
                    bounds,
                    #[trigger] keys[i],
                ) by {
                    lemma_lex_total(keys[i], k);
                }
                if !bounds.admits(k) {
                    assert forall|x: Seq<u8>| !#[trigger] is_visible(
                        table,
                        pager,
                        bounds,
                        lsn,
                        x,
                    ) by {
                        if bounds.admits(x) {
                            match end {
                                Bound::Included(e) => {
                                    if x != k && x != e@ {
                                        lemma_lex_transitive(k, x, e@);
                                    }
                                },
                                Bound::Excluded(e) => {
                                    if x != k {
                                        lemma_lex_transitive(k, x, e@);
                                    }
                                },
                                Bound::Unbounded => {},
                            }
                        }
                    }
                }
            },
            ScanBounds::Range { start: Bound::Excluded(s), end } => {
                lemma_start_behind(table, pager, bounds, k, leaf);
            },
            _ => {},
        }
    }
}

/// A scan behind a key starts at the first key that comes after it, whether the tree holds the key
/// or not.
#[verifier::spinoff_prover]
proof fn lemma_start_behind(
    table: PagedBTree,
    pager: Pager,
    bounds: ScanBounds,
    k: Seq<u8>,
    leaf: int,
)
    requires
        table.wf(&pager),
        bounds matches ScanBounds::Range { start, .. } && (start matches Bound::Excluded(s) && s@
            == k),
        ({
            let n = nodes(pager.pages());
            let ls = leaves(n, table.root_page_id.0, table.height@);
            &&& 0 <= leaf < ls.len()
            &&& ls[leaf] == route(n, table.root_page_id.0, table.height@, k).last()
            &&& offset(n, ls, leaf) + rank(n[ls[leaf]]->Leaf_keys, k) == rank(flat_keys(n, ls), k)
        }),
    ensures
        ({
            let n = nodes(pager.pages());
            let ls = leaves(n, table.root_page_id.0, table.height@);
            let pos = rank(n[ls[leaf]]->Leaf_keys, k);
            parts_keys(
                n,
                ls,
                leaf,
                if is_entry(n[ls[leaf]], pos, k) {
                    pos + 1
                } else {
                    pos
                },
                bounds,
            )
        }),
{
    let n = nodes(pager.pages());
    let root = table.root_page_id.0;
    let h = table.height@;
    let ls = leaves(n, root, h);
    let keys = flat_keys(n, ls);
    let here = n[ls[leaf]]->Leaf_keys;
    let pos = rank(here, k);
    let p = rank(keys, k);
    lemma_entries(table, pager);
    lemma_leaves(n, root, h, None, None, 0);
    lemma_rank_parts(keys, k);
    lemma_rank_parts(here, k);
    lemma_lex_irreflexive(k);
    lemma_offset(n, ls, 0, leaf);
    let behind = if is_entry(n[ls[leaf]], pos, k) {
        p + 1
    } else {
        p
    };
    if is_entry(n[ls[leaf]], pos, k) {
        assert(keys[p] == k);
    } else if p < keys.len() && keys[p] == k {
        lemma_held_here(table, pager, k, leaf);
    }
    lemma_behind(keys, bounds, k, behind);
}

/// A key that the tree holds stands in the leaf that its way leads to.
proof fn lemma_held_here(table: PagedBTree, pager: Pager, k: Seq<u8>, leaf: int)
    requires
        table.wf(&pager),
        ({
            let n = nodes(pager.pages());
            let ls = leaves(n, table.root_page_id.0, table.height@);
            &&& 0 <= leaf < ls.len()
            &&& ls[leaf] == route(n, table.root_page_id.0, table.height@, k).last()
            &&& flat_keys(n, ls).contains(k)
        }),
    ensures
        ({
            let n = nodes(pager.pages());
            let ls = leaves(n, table.root_page_id.0, table.height@);
            is_entry(n[ls[leaf]], rank(n[ls[leaf]]->Leaf_keys, k), k)
        }),
{
    let n = nodes(pager.pages());
    let ls = leaves(n, table.root_page_id.0, table.height@);
    let here = n[ls[leaf]]->Leaf_keys;
    let chains = n[ls[leaf]]->chains;
    lemma_entries(table, pager);
    let i = flat_keys(n, ls).index_of(k);
    assert(table.find(&pager, flat_keys(n, ls)[i]) is Some);
    lemma_route(n, table.root_page_id.0, table.height@, None, None, 0, k);
    let q = lemma_leaf_found(here, chains, k);
}

/// The keys behind an excluded start are past it, and those up to it are out of bounds.
proof fn lemma_behind(keys: Seq<Seq<u8>>, bounds: ScanBounds, k: Seq<u8>, behind: int)
    requires
        ascending(keys),
        bounds matches ScanBounds::Range { start, .. } && (start matches Bound::Excluded(s) && s@
            == k),
        ({
            let p = rank(keys, k);
            behind == (if p < keys.len() && keys[p] == k {
                p + 1
            } else {
                p
            })
        }),
    ensures
        forall|i: int| 0 <= i < behind ==> !bounds.admits(#[trigger] keys[i]),
        forall|i: int| behind <= i < keys.len() ==> is_past_start(bounds, #[trigger] keys[i]),
{
    let p = rank(keys, k);
    lemma_rank_parts(keys, k);
    lemma_lex_irreflexive(k);
    assert forall|i: int| 0 <= i < behind implies !bounds.admits(#[trigger] keys[i]) by {
        if i < p {
            lemma_lex_asymmetric(keys[i], k);
        }
    }
    assert forall|i: int| behind <= i < keys.len() implies is_past_start(
        bounds,
        #[trigger] keys[i],
    ) by {
        lemma_lex_total(keys[i], k);
        if keys[i] == k && i > p {
            assert(lex_lt(keys[p], keys[i]));
        }
    }
}

/// A scan starts at the first key within its bounds that the reader sees, and shows nothing only
/// where there is none.
pub proof fn law_scan_starts_at_first(cursor: &PagedBTreeCursor)
    requires
        cursor.wf(),
        cursor.is_first(),
    ensures
        shows_first(cursor),
{
    let table = *cursor.table;
    let pager = *cursor.pager;
    let n = cursor.nodes();
    let ls = cursor.leaves();
    lemma_entries(table, pager);
    if cursor.starts_at_front() {
        assert(ls.take(0) =~= Seq::empty());
        lemma_shows_first(cursor, 0, 0);
    } else {
        let k = cursor.front_key();
        lemma_start(table, pager, cursor.bounds, cursor.snapshot_lsn);
        assert(cursor.place_of(k) == place_of(table, pager, k));
        lemma_lex_irreflexive(k);
        if let Some((leaf, pos)) = scan_start(table, pager, cursor.bounds) {
            lemma_shows_first(cursor, leaf, pos);
        }
    }
}

/// A seek for a key before the start of a range goes to the first key within it that the reader
/// sees.
pub proof fn law_seek_before_the_start(cursor: &PagedBTreeCursor, key: Seq<u8>)
    requires
        cursor.wf(),
        cursor.sought(seek_target(cursor.bounds, key)),
        cursor.bounds matches ScanBounds::Range { start, .. } && match start {
            Bound::Included(k) => lex_lt(key, k@),
            Bound::Excluded(k) => lex_le(key, k@),
            Bound::Unbounded => false,
        },
    ensures
        shows_first(cursor),
{
    let k = cursor.front_key();
    lemma_lex_irreflexive(k);
    if lex_lt(key, k) {
        lemma_lex_asymmetric(key, k);
    }
    assert(seek_target(cursor.bounds, key) == seek_target(cursor.bounds, k));
    law_scan_starts_at_first(cursor);
}

/// A seek for a key within the start of a range and past its end shows nothing, and from that key
/// on there is nothing to show.
pub proof fn law_seek_past_the_end(cursor: &PagedBTreeCursor, key: Seq<u8>, x: Seq<u8>)
    requires
        cursor.sought(seek_target(cursor.bounds, key)),
        cursor.bounds matches ScanBounds::Range { start, end } && start.admits_from(key)
            && !end.admits_to(key),
        lex_le(key, x),
    ensures
        cursor.exhausted,
        cursor.current_key is None,
        !is_visible(*cursor.table, *cursor.pager, cursor.bounds, cursor.snapshot_lsn, x),
{
    if let ScanBounds::Range { start, end } = cursor.bounds {
        match start {
            Bound::Included(k) => {
                if lex_lt(key, k@) {
                    lemma_lex_asymmetric(key, k@);
                }
            },
            Bound::Excluded(k) => {
                if lex_le(key, k@) {
                    lemma_lex_asymmetric(k@, key);
                }
            },
            Bound::Unbounded => {},
        }
        match end {
            Bound::Included(e) => {
                if lex_le(x, e@) && key != x && x != e@ {
                    lemma_lex_transitive(key, x, e@);
                }
            },
            Bound::Excluded(e) => {
                if lex_lt(x, e@) && key != x {
                    lemma_lex_transitive(key, x, e@);
                }
            },
            Bound::Unbounded => {},
        }
    }
}

/// The place of a key parts the keys before it from the others.
proof fn lemma_place_parts(table: PagedBTree, pager: Pager, key: Seq<u8>)
    requires
        table.wf(&pager),
    ensures
        ({
            let n = nodes(pager.pages());
            let ls = leaves(n, table.root_page_id.0, table.height@);
            let keys = flat_keys(n, ls);
            let (leaf, pos) = place_of(table, pager, key);
            let p = offset(n, ls, leaf) + pos;
            &&& 0 <= leaf < ls.len()
            &&& 0 <= pos <= n[ls[leaf]]->Leaf_keys.len()
            &&& forall|i: int| 0 <= i < p ==> lex_lt(#[trigger] keys[i], key)
            &&& forall|i: int| p <= i < keys.len() ==> lex_le(key, #[trigger] keys[i])
        }),
{
    let n = nodes(pager.pages());
    let root = table.root_page_id.0;
    let ls = leaves(n, root, table.height@);
    let keys = flat_keys(n, ls);
    lemma_entries(table, pager);
    lemma_leaves(n, root, table.height@, None, None, 0);
    let leaf = lemma_place(n, root, table.height@, None, None, 0, key);
    assert(ls.index_of(ls[leaf]) == leaf);
    lemma_offset(n, ls, 0, leaf);
    lemma_rank_parts(keys, key);
    lemma_rank_parts(n[ls[leaf]]->Leaf_keys, key);
    assert forall|i: int| rank(keys, key) <= i < keys.len() implies lex_le(
        key,
        #[trigger] keys[i],
    ) by {
        lemma_lex_total(keys[i], key);
    }
}

/// A seek for a key within the bounds reaches the first key from there on that lies within the
/// bounds and that the reader sees, and stops at nothing only where there is none.
#[verifier::rlimit(60)]
#[verifier::spinoff_prover]
pub proof fn law_seek_leaves_out_nothing(
    table: PagedBTree,
    pager: Pager,
    bounds: ScanBounds,
    lsn: LogSequenceNumber,
    key: Seq<u8>,
)
    requires
        table.wf(&pager),
        bounds.admits(key),
    ensures
        ({
            let n = nodes(pager.pages());
            let ls = leaves(n, table.root_page_id.0, table.height@);
            let (leaf, pos) = place_of(table, pager, key);
            match walk(n, ls, leaf, pos, bounds, lsn) {
                ScanStop::Found(l, p) => {
                    let found = n[ls[l]]->Leaf_keys[p];
                    &&& lex_le(key, found)
                    &&& is_visible(table, pager, bounds, lsn, found)
                    &&& forall|x: Seq<u8>|
                        lex_le(key, x) && lex_lt(x, found) ==> !#[trigger] is_visible(
                            table,
                            pager,
                            bounds,
                            lsn,
                            x,
                        )
                },
                _ => forall|x: Seq<u8>|
                    lex_le(key, x) ==> !#[trigger] is_visible(table, pager, bounds, lsn, x),
            }
        }),
{
    let n = nodes(pager.pages());
    let ls = leaves(n, table.root_page_id.0, table.height@);
    let keys = flat_keys(n, ls);
    let chains = flat_chains(n, ls);
    let (leaf, pos) = place_of(table, pager, key);
    lemma_entries(table, pager);
    lemma_place_parts(table, pager, key);
    lemma_walk(n, ls, 0, leaf, pos, bounds, lsn);
    let f = offset(n, ls, leaf) + pos;
    let stop = walk(n, ls, leaf, pos, bounds, lsn);
    if let ScanStop::Found(l, p) = stop {
        let g = offset(n, ls, l) + p;
        assert(lex_le(key, keys[g]));
        assert(table.find(&pager, keys[g]) == Some(chains[g]));
    }
    assert forall|x: Seq<u8>|
        lex_le(key, x) && (stop matches ScanStop::Found(l, p) ==> lex_lt(
            x,
            n[ls[l]]->Leaf_keys[p],
        )) implies !#[trigger] is_visible(table, pager, bounds, lsn, x) by {
        if is_visible(table, pager, bounds, lsn, x) {
            let i = keys.index_of(x);
            assert(keys[i] == x);
            assert(table.find(&pager, keys[i]) == Some(chains[i]));
            lemma_lex_irreflexive(x);
            if i < f {
                assert(lex_lt(keys[i], key));
                lemma_lex_asymmetric(x, key);
                assert(false);
            }
            match stop {
                ScanStop::Found(l, p) => {
                    let g = offset(n, ls, l) + p;
                    if i >= g {
                        if g < i {
                            assert(lex_lt(keys[g], keys[i]));
                            lemma_lex_asymmetric(keys[g], x);
                        }
                        assert(false);
                    }
                    assert(shown(chains[i], lsn) is None);
                },
                ScanStop::OutOfBounds(l, p) => {
                    let g = offset(n, ls, l) + p;
                    if i < g {
                        assert(shown(chains[i], lsn) is None);
                    } else if i > g {
                        assert(lex_le(key, keys[g]));
                        assert(lex_lt(keys[g], keys[i]));
                        lemma_past_end(bounds, key, keys[g], keys[i]);
                    }
                },
                ScanStop::End => {
                    assert(shown(chains[i], lsn) is None);
                },
            }
        }
    }
}

/// The entry at a position of a leaf lies within the bounds, and a reader sees a value there that
/// marks no deletion.
pub open spec fn is_seen_entry(
    leaf: Node,
    pos: int,
    bounds: ScanBounds,
    lsn: LogSequenceNumber,
) -> bool {
    &&& bounds.admits(leaf->Leaf_keys[pos])
    &&& visible_at(leaf->chains[pos], lsn) is Some
    &&& visible_at(leaf->chains[pos], lsn)->Some_0.len() > 0
}

/// Moving back from a position reaches the nearest entry before it in the leaf that lies within
/// the bounds and that the reader sees, past all that it does not see, and stops at nothing only
/// where the leaf has none before it.
pub proof fn law_prev_leaves_out_nothing_of_its_leaf(
    leaf: Node,
    pos: int,
    bounds: ScanBounds,
    lsn: LogSequenceNumber,
)
    requires
        0 <= pos,
    ensures
        match walk_back(leaf, pos, bounds, lsn) {
            Some(p) => {
                &&& 0 <= p < pos
                &&& is_seen_entry(leaf, p, bounds, lsn)
                &&& forall|i: int| p < i < pos ==> !#[trigger] is_seen_entry(leaf, i, bounds, lsn)
            },
            None => forall|i: int|
                0 <= i < pos ==> !#[trigger] is_seen_entry(leaf, i, bounds, lsn),
        },
    decreases pos,
{
    if pos > 0 {
        let v = visible_at(leaf->chains[pos - 1], lsn);
        assert(shown(leaf->chains[pos - 1], lsn) is Some <==> v is Some && v->Some_0.len() > 0);
        if !(bounds.admits(leaf->Leaf_keys[pos - 1]) && shown(leaf->chains[pos - 1], lsn) is Some) {
            law_prev_leaves_out_nothing_of_its_leaf(leaf, pos - 1, bounds, lsn);
        }
    }
}

/// The keys from position `p` on that a scan shows.
spec fn flat_hits(
    keys: Seq<Seq<u8>>,
    chains: Seq<Seq<Version>>,
    p: int,
    bounds: ScanBounds,
    lsn: LogSequenceNumber,
) -> Seq<Seq<u8>>
    decreases keys.len() - p,
{
    if p < 0 || p >= keys.len() || !bounds.admits(keys[p]) {
        Seq::empty()
    } else if shown(chains[p], lsn) is Some {
        seq![keys[p]] + flat_hits(keys, chains, p + 1, bounds, lsn)
    } else {
        flat_hits(keys, chains, p + 1, bounds, lsn)
    }
}

proof fn lemma_flat_hits(
    n: Nodes,
    ls: Seq<u64>,
    after: u64,
    leaf: int,
    pos: int,
    bounds: ScanBounds,
    lsn: LogSequenceNumber,
)
    requires
        linked(n, ls, after),
        0 <= leaf <= ls.len(),
        0 <= pos,
        leaf < ls.len() ==> pos <= n[ls[leaf]]->Leaf_keys.len(),
        leaf == ls.len() ==> pos == 0,
    ensures
        hits(n, ls, leaf, pos, bounds, lsn) == flat_hits(
            flat_keys(n, ls),
            flat_chains(n, ls),
            offset(n, ls, leaf) + pos,
            bounds,
            lsn,
        ),
    decreases ls.len() - leaf, n[ls[leaf]]->Leaf_keys.len() - pos,
{
    if leaf >= ls.len() {
        assert(ls.take(leaf) =~= ls);
    } else {
        lemma_offset(n, ls, after, leaf);
        let keys = n[ls[leaf]]->Leaf_keys;
        if pos >= keys.len() {
            lemma_flat_hits(n, ls, after, leaf + 1, 0, bounds, lsn);
        } else {
            let g = offset(n, ls, leaf) + pos;
            assert(keys[pos] == flat_keys(n, ls)[g]);
            assert(n[ls[leaf]]->chains[pos] == flat_chains(n, ls)[g]);
            lemma_flat_hits(n, ls, after, leaf, pos + 1, bounds, lsn);
        }
    }
}

/// What a scan shows from a position on that parts the keys: every key from there on that is
/// within bounds and seen, in order.
proof fn lemma_hits_complete(
    keys: Seq<Seq<u8>>,
    chains: Seq<Seq<Version>>,
    p: int,
    bounds: ScanBounds,
    lsn: LogSequenceNumber,
)
    requires
        ascending(keys),
        0 <= p <= keys.len(),
        forall|i: int| p <= i < keys.len() ==> is_past_start(bounds, #[trigger] keys[i]),
    ensures
        ascending(flat_hits(keys, chains, p, bounds, lsn)),
        forall|x: Seq<u8>| #[trigger]
            flat_hits(keys, chains, p, bounds, lsn).contains(x) <==> exists|i: int|
                p <= i < keys.len() && #[trigger] keys[i] == x && bounds.admits(x) && shown(
                    chains[i],
                    lsn,
                ) is Some,
    decreases keys.len() - p,
{
    let all = flat_hits(keys, chains, p, bounds, lsn);
    if p < keys.len() {
        lemma_hits_complete(keys, chains, p + 1, bounds, lsn);
        let rest = flat_hits(keys, chains, p + 1, bounds, lsn);
        if !bounds.admits(keys[p]) {
            assert forall|i: int| p <= i < keys.len() implies !bounds.admits(
                #[trigger] keys[i],
            ) by {
                if i > p {
                    assert(lex_lt(keys[p], keys[i]));
                    lemma_past_end(
                        bounds,
                        match bounds {
                            ScanBounds::Prefix(prefix) => prefix@,
                            _ => keys[p],
                        },
                        keys[p],
                        keys[i],
                    );
                }
            }
        } else {
            assert forall|x: Seq<u8>| #[trigger] all.contains(x) <==> exists|i: int|
                p <= i < keys.len() && #[trigger] keys[i] == x && bounds.admits(x) && shown(
                    chains[i],
                    lsn,
                ) is Some by {
                if all.contains(x) {
                    let j = all.index_of(x);
                    if shown(chains[p], lsn) is Some {
                        if j == 0 {
                            assert(keys[p] == x);
                        } else {
                            assert(rest[j - 1] == x);
                            assert(rest.contains(x));
                        }
                    } else {
                        assert(rest.contains(x));
                    }
                }
                if exists|i: int|
                    p <= i < keys.len() && #[trigger] keys[i] == x && bounds.admits(x) && shown(
                        chains[i],
                        lsn,
                    ) is Some {
                    let i = choose|i: int|
                        p <= i < keys.len() && #[trigger] keys[i] == x && bounds.admits(x)
                            && shown(chains[i], lsn) is Some;
                    if i == p {
                        assert(all[0] == x);
                    } else {
                        assert(keys[i] == x);
                        assert(rest.contains(x));
                        let j = rest.index_of(x);
                        if shown(chains[p], lsn) is Some {
                            assert(all[j + 1] == x);
                        } else {
                            assert(all[j] == x);
                        }
                    }
                }
            }
            if shown(chains[p], lsn) is Some {
                assert forall|i: int, j: int| 0 <= i < j < all.len() implies lex_lt(
                    #[trigger] all[i],
                    #[trigger] all[j],
                ) by {
                    assert(rest[j - 1] == all[j]);
                    if i == 0 {
                        assert(rest.contains(rest[j - 1]));
                        let q = choose|q: int|
                            p + 1 <= q < keys.len() && #[trigger] keys[q] == rest[j - 1]
                                && bounds.admits(rest[j - 1]) && shown(chains[q], lsn) is Some;
                        assert(lex_lt(keys[p], keys[q]));
                    } else {
                        assert(rest[i - 1] == all[i]);
                    }
                }
            }
        }
    }
}

/// A deletion of a range takes every key within the bounds that the reader sees, each once and in
/// order, and no other, as long as there is a way to the front of the tree.
pub proof fn law_range_takes_every_key(
    table: PagedBTree,
    pager: Pager,
    bounds: ScanBounds,
    lsn: LogSequenceNumber,
    x: Seq<u8>,
)
    requires
        table.wf(&pager),
        leftmost(nodes(pager.pages()), table.root_page_id.0, table.height@) is Some,
    ensures
        ascending(scan_hits(table, pager, bounds, lsn)),
        scan_hits(table, pager, bounds, lsn).contains(x) <==> is_visible(
            table,
            pager,
            bounds,
            lsn,
            x,
        ),
{
    let n = nodes(pager.pages());
    let ls = leaves(n, table.root_page_id.0, table.height@);
    let keys = flat_keys(n, ls);
    let chains = flat_chains(n, ls);
    lemma_entries(table, pager);
    lemma_start(table, pager, bounds, lsn);
    if let Some((leaf, pos)) = scan_start(table, pager, bounds) {
        let p = offset(n, ls, leaf) + pos;
        lemma_offset(n, ls, 0, leaf);
        lemma_flat_hits(n, ls, 0, leaf, pos, bounds, lsn);
        lemma_hits_complete(keys, chains, p, bounds, lsn);
        if is_visible(table, pager, bounds, lsn, x) {
            let i = keys.index_of(x);
            assert(keys[i] == x);
            assert(table.find(&pager, keys[i]) == Some(chains[i]));
            assert(i >= p);
        }
        if flat_hits(keys, chains, p, bounds, lsn).contains(x) {
            let i = choose|i: int|
                p <= i < keys.len() && #[trigger] keys[i] == x && bounds.admits(x) && shown(
                    chains[i],
                    lsn,
                ) is Some;
            assert(table.find(&pager, keys[i]) == Some(chains[i]));
        }
    }
}

} // verus!

//! Whether the pages under a root are a tree.
use crate::btree::node::{
    inner_keys, inner_kids, leaf_chains, leaf_keys, BTreeNode, InternalEntry, LeafEntry,
};
use crate::btree::paged::{nodes, PagedBTree};
use crate::btree::tree::{
    between, first_leaf, high, in_range, kid_after, low, nondecreasing, owns, tree, Nodes,
};
use crate::bytemap::ascending;
use crate::bytes::{compare_bytes, lemma_lex_transitive, lex_le, lex_lt, ByteOrder};
use crate::pager::{PageId, Pager};
use std::collections::HashSet;
use vstd::prelude::*;

verus! {

broadcast use vstd::std_specs::hash::group_hash_axioms;

/// The end of a range as contracts speak of it.
spec fn bound(b: Option<&Vec<u8>>) -> Option<Seq<u8>> {
    match b {
        Some(v) => Some(v@),
        None => None,
    }
}

fn not_after(a: &[u8], b: &[u8]) -> (r: bool)
    ensures
        r == lex_le(a@, b@),
{
    match compare_bytes(a, b) {
        ByteOrder::Greater => false,
        _ => true,
    }
}

fn is_before(a: &[u8], b: &[u8]) -> (r: bool)
    ensures
        r == lex_lt(a@, b@),
{
    match compare_bytes(a, b) {
        ByteOrder::Less => true,
        _ => false,
    }
}

/// Whether the keys of a leaf ascend within a range.
fn is_leaf_sound(entries: &Vec<LeafEntry>, lo: Option<&Vec<u8>>, hi: Option<&Vec<u8>>) -> (r: bool)
    ensures
        r == (ascending(leaf_keys(entries@)) && forall|i: int|
            0 <= i < entries@.len() ==> in_range(
                #[trigger] leaf_keys(entries@)[i],
                bound(lo),
                bound(hi),
            )),
{
    let ghost keys = leaf_keys(entries@);
    let mut i: usize = 0;
    while i < entries.len()
        invariant
            i <= entries@.len(),
            keys == leaf_keys(entries@),
            forall|a: int, b: int|
                0 <= a < b < i ==> lex_lt(#[trigger] keys[a], #[trigger] keys[b]),
            forall|j: int| 0 <= j < i ==> in_range(#[trigger] keys[j], bound(lo), bound(hi)),
        decreases entries@.len() - i,
    {
        let key = entries[i].key.as_slice();
        assert(keys[i as int] == key@);
        if let Some(l) = lo {
            if !not_after(l.as_slice(), key) {
                return false;
            }
        }
        if let Some(h) = hi {
            if !is_before(key, h.as_slice()) {
                return false;
            }
        }
        if i > 0 {
            assert(keys[i - 1] == entries@[i - 1].key@);
            if !is_before(entries[i - 1].key.as_slice(), key) {
                return false;
            }
            assert forall|a: int| 0 <= a < i implies lex_lt(
                #[trigger] keys[a],
                keys[i as int],
            ) by {
                if a < i - 1 {
                    lemma_lex_transitive(keys[a], keys[i - 1], keys[i as int]);
                }
            }
        }
        i = i + 1;
    }
    true
}

/// Whether separators never descend and lie within a range.
fn is_inner_sound(entries: &Vec<InternalEntry>, lo: Option<&Vec<u8>>, hi: Option<&Vec<u8>>) -> (r:
    bool)
    ensures
        r == (nondecreasing(inner_keys(entries@)) && forall|i: int|
            0 <= i < entries@.len() ==> between(
                #[trigger] inner_keys(entries@)[i],
                bound(lo),
                bound(hi),
            )),
{
    let ghost keys = inner_keys(entries@);
    let mut i: usize = 0;
    while i < entries.len()
        invariant
            i <= entries@.len(),
            keys == inner_keys(entries@),
            forall|a: int, b: int|
                0 <= a < b < i ==> lex_le(#[trigger] keys[a], #[trigger] keys[b]),
            forall|j: int| 0 <= j < i ==> between(#[trigger] keys[j], bound(lo), bound(hi)),
        decreases entries@.len() - i,
    {
        let key = entries[i].key.as_slice();
        assert(keys[i as int] == key@);
        if let Some(l) = lo {
            if !not_after(l.as_slice(), key) {
                return false;
            }
        }
        if let Some(h) = hi {
            if !not_after(key, h.as_slice()) {
                return false;
            }
        }
        if i > 0 {
            assert(keys[i - 1] == entries@[i - 1].key@);
            if !not_after(entries[i - 1].key.as_slice(), key) {
                return false;
            }
            assert forall|a: int| 0 <= a < i implies lex_le(#[trigger] keys[a], keys[i as int]) by {
                if a < i - 1 && keys[a] != keys[i - 1] && keys[i - 1] != keys[i as int] {
                    lemma_lex_transitive(keys[a], keys[i - 1], keys[i as int]);
                }
            }
        }
        i = i + 1;
    }
    true
}

/// A tree of height `h` lies under page `id`, without any of the pages in `seen`.
spec fn is_new_tree(
    n: Nodes,
    id: u64,
    h: nat,
    lo: Option<Seq<u8>>,
    hi: Option<Seq<u8>>,
    after: u64,
    seen: Set<u64>,
) -> bool {
    &&& tree(n, id, h, lo, hi, after)
    &&& forall|p: u64| #[trigger] owns(n, id, h, p) ==> !seen.contains(p)
}

/// The children from `i` on are trees that share no page with each other, with their parent, or
/// with `seen`; all their pages and the parent are now in `now`.
spec fn are_new_trees(
    n: Nodes,
    id: u64,
    h: nat,
    lo: Option<Seq<u8>>,
    hi: Option<Seq<u8>>,
    after: u64,
    seen: Set<u64>,
    now: Set<u64>,
    i: int,
) -> bool {
    let keys = n[id]->Internal_keys;
    let kids = n[id]->kids;
    &&& forall|j: int|
        i <= j < kids.len() ==> tree(
            n,
            #[trigger] kids[j],
            h,
            low(keys, lo, j),
            high(keys, hi, j),
            kid_after(n, kids, h, after, j),
        )
    &&& forall|j: int, p: u64|
        i <= j < kids.len() && #[trigger] owns(n, kids[j], h, p) ==> p != id && !seen.contains(p)
            && now.contains(p)
    &&& forall|j: int, k: int, p: u64|
        i <= j < k < kids.len() ==> !(#[trigger] owns(n, kids[j], h, p) && #[trigger] owns(
            n,
            kids[k],
            h,
            p,
        ))
    &&& forall|p: u64| #[trigger]
        now.contains(p) ==> seen.contains(p) || p == id || exists|j: int|
            i <= j < kids.len() && #[trigger] owns(n, kids[j], h, p)
    &&& now.contains(id)
    &&& seen.subset_of(now)
}

proof fn lemma_next_kid(
    n: Nodes,
    id: u64,
    h: nat,
    lo: Option<Seq<u8>>,
    hi: Option<Seq<u8>>,
    after: u64,
    seen: Set<u64>,
    now: Set<u64>,
    i: int,
    later: Set<u64>,
)
    requires
        n[id] is Internal,
        0 <= i < n[id]->kids.len(),
        are_new_trees(n, id, h, lo, hi, after, seen, now, i + 1),
        is_new_tree(
            n,
            n[id]->kids[i],
            h,
            low(n[id]->Internal_keys, lo, i),
            high(n[id]->Internal_keys, hi, i),
            kid_after(n, n[id]->kids, h, after, i),
            now,
        ),
        forall|p: u64| #[trigger]
            later.contains(p) <==> now.contains(p) || owns(n, n[id]->kids[i], h, p),
    ensures
        are_new_trees(n, id, h, lo, hi, after, seen, later, i),
{
    let kids = n[id]->kids;
    assert forall|j: int, p: u64|
        i <= j < kids.len() && #[trigger] owns(n, kids[j], h, p) implies p != id && !seen.contains(p)
        && later.contains(p) by {
        if j == i {
            assert(!now.contains(p));
        }
    }
    assert forall|j: int, k: int, p: u64| i <= j < k < kids.len() implies !(#[trigger] owns(
        n,
        kids[j],
        h,
        p,
    ) && #[trigger] owns(n, kids[k], h, p)) by {
        if j == i && owns(n, kids[k], h, p) && owns(n, kids[j], h, p) {
            assert(now.contains(p));
        }
    }
    assert forall|p: u64| #[trigger] later.contains(p) implies seen.contains(p) || p == id
        || exists|j: int| i <= j < kids.len() && #[trigger] owns(n, kids[j], h, p) by {
        if now.contains(p) {
            if !seen.contains(p) && p != id {
                let j = choose|j: int|
                    i + 1 <= j < kids.len() && #[trigger] owns(n, kids[j], h, p);
                assert(owns(n, kids[j], h, p));
            }
        } else {
            assert(owns(n, kids[i], h, p));
        }
    }
}

proof fn lemma_bad_kid(
    n: Nodes,
    id: u64,
    h: nat,
    lo: Option<Seq<u8>>,
    hi: Option<Seq<u8>>,
    after: u64,
    seen: Set<u64>,
    now: Set<u64>,
    i: int,
)
    requires
        n[id] is Internal,
        0 <= i < n[id]->kids.len(),
        are_new_trees(n, id, h, lo, hi, after, seen, now, i + 1),
        !is_new_tree(
            n,
            n[id]->kids[i],
            h,
            low(n[id]->Internal_keys, lo, i),
            high(n[id]->Internal_keys, hi, i),
            kid_after(n, n[id]->kids, h, after, i),
            now,
        ),
    ensures
        !is_new_tree(n, id, h + 1, lo, hi, after, seen),
{
    let kids = n[id]->kids;
    if is_new_tree(n, id, h + 1, lo, hi, after, seen) {
        assert(tree(
            n,
            kids[i],
            h,
            low(n[id]->Internal_keys, lo, i),
            high(n[id]->Internal_keys, hi, i),
            kid_after(n, kids, h, after, i),
        ));
        let p = choose|p: u64| #[trigger] owns(n, kids[i], h, p) && now.contains(p);
        assert(owns(n, kids[i], h, p) && now.contains(p));
        assert(owns(n, id, h + 1, p));
        assert(!seen.contains(p));
        assert(!owns(n, kids[i], h, id));
        let j = choose|j: int| i + 1 <= j < kids.len() && #[trigger] owns(n, kids[j], h, p);
        assert(owns(n, kids[j], h, p));
    }
}

proof fn lemma_all_kids(
    n: Nodes,
    id: u64,
    h: nat,
    lo: Option<Seq<u8>>,
    hi: Option<Seq<u8>>,
    after: u64,
    seen: Set<u64>,
    now: Set<u64>,
)
    requires
        id != 0,
        n.contains_key(id),
        n[id] is Internal,
        !seen.contains(id),
        n[id]->kids.len() == n[id]->Internal_keys.len() + 1,
        nondecreasing(n[id]->Internal_keys),
        forall|i: int|
            0 <= i < n[id]->Internal_keys.len() ==> between(
                #[trigger] n[id]->Internal_keys[i],
                lo,
                hi,
            ),
        are_new_trees(n, id, h, lo, hi, after, seen, now, 0),
    ensures
        is_new_tree(n, id, h + 1, lo, hi, after, seen),
        forall|p: u64| #[trigger] now.contains(p) <==> seen.contains(p) || owns(n, id, h + 1, p),
{
    let kids = n[id]->kids;
    assert forall|i: int| 0 <= i < kids.len() implies !owns(n, #[trigger] kids[i], h, id) by {
        if owns(n, kids[i], h, id) {
            assert(id != id);
        }
    }
    assert(tree(n, id, h + 1, lo, hi, after));
    assert forall|p: u64| #[trigger] owns(n, id, h + 1, p) implies !seen.contains(p)
        && now.contains(p) by {
        if p != id {
            let i = choose|i: int| 0 <= i < kids.len() && owns(n, #[trigger] kids[i], h, p);
            assert(owns(n, kids[i], h, p));
        }
    }
    assert forall|p: u64| #[trigger] now.contains(p) implies seen.contains(p) || owns(
        n,
        id,
        h + 1,
        p,
    ) by {
        if !seen.contains(p) && p != id {
            let j = choose|j: int| 0 <= j < kids.len() && #[trigger] owns(n, kids[j], h, p);
            assert(owns(n, kids[j], h, p));
        }
    }
}

/// The pages on the way to the first leaf.
spec fn first_way(n: Nodes, id: u64, h: nat) -> Set<int>
    decreases h,
{
    if h == 0 {
        Set::empty().insert(id as int)
    } else {
        first_way(n, n[id]->kids[0], (h - 1) as nat).insert(id as int)
    }
}

proof fn lemma_first_way(
    n: Nodes,
    id: u64,
    h: nat,
    lo: Option<Seq<u8>>,
    hi: Option<Seq<u8>>,
    after: u64,
)
    requires
        tree(n, id, h, lo, hi, after),
    ensures
        first_way(n, id, h).finite(),
        first_way(n, id, h).len() == h + 1,
        forall|p: int| #[trigger]
            first_way(n, id, h).contains(p) ==> 0 <= p <= u64::MAX && owns(n, id, h, p as u64)
                && n.contains_key(p as u64),
    decreases h,
{
    if h > 0 {
        let kids = n[id]->kids;
        let keys = n[id]->Internal_keys;
        let m = (h - 1) as nat;
        assert(tree(n, kids[0], m, low(keys, lo, 0), high(keys, hi, 0), kid_after(n, kids, m, after, 0)));
        lemma_first_way(
            n,
            kids[0],
            m,
            low(keys, lo, 0),
            high(keys, hi, 0),
            kid_after(n, kids, m, after, 0),
        );
        assert(!owns(n, kids[0], m, id));
        assert(!first_way(n, kids[0], m).contains(id as int));
        assert forall|p: int| #[trigger] first_way(n, id, h).contains(p) implies 0 <= p <= u64::MAX
            && owns(n, id, h, p as u64) && n.contains_key(p as u64) by {
            if p != id as int {
                assert(first_way(n, kids[0], m).contains(p));
                assert(owns(n, kids[0], m, p as u64));
            }
        }
    }
}

/// A tree is less high than the store has pages.
proof fn lemma_height(pager: Pager, id: u64, h: nat)
    requires
        pager.wf(),
        tree(nodes(pager.pages()), id, h, None, None, 0),
    ensures
        h < pager.slots@.len(),
{
    let n = nodes(pager.pages());
    lemma_first_way(n, id, h, None, None, 0);
    let way = first_way(n, id, h);
    let range = vstd::set_lib::set_int_range(0, pager.slots@.len() as int);
    vstd::set_lib::lemma_int_range(0, pager.slots@.len() as int);
    assert forall|p: int| #[trigger] way.contains(p) implies range.contains(p) by {
        assert(pager.pages().contains_key(p as u64));
    }
    vstd::set_lib::lemma_len_subset(way, range);
}

impl PagedBTree {
    /// The first leaf of the tree under a page, if the pages there are a tree and none was seen
    /// before.
    fn check_under(
        &self,
        pager: &Pager,
        id: u64,
        h: usize,
        lo: Option<&Vec<u8>>,
        hi: Option<&Vec<u8>>,
        after: u64,
        seen: &mut HashSet<u64>,
    ) -> (r: Option<u64>)
        requires
            pager.wf(),
        ensures
            r is Some <==> is_new_tree(
                nodes(pager.pages()),
                id,
                h as nat,
                bound(lo),
                bound(hi),
                after,
                old(seen)@,
            ),
            r matches Some(first) ==> {
                &&& first == first_leaf(nodes(pager.pages()), id, h as nat)
                &&& forall|p: u64| #[trigger]
                    final(seen)@.contains(p) <==> old(seen)@.contains(p) || owns(
                        nodes(pager.pages()),
                        id,
                        h as nat,
                        p,
                    )
            },
        decreases h,
    {
        let ghost n = nodes(pager.pages());
        let ghost seen0 = seen@;
        if id == 0 {
            return None;
        }
        if seen.contains(&id) {
            assert(owns(n, id, h as nat, id));
            return None;
        }
        let node = match self.read_node(pager, PageId(id)) {
            Ok(node) => node,
            Err(_) => return None,
        };
        match &node {
            BTreeNode::Leaf { version, entries, next_leaf } => {
                if h != 0 || next_leaf.0 != after || !is_leaf_sound(entries, lo, hi) {
                    return None;
                }
                proof {
                    assert forall|i: int| 0 <= i < entries@.len() implies (
                    #[trigger] leaf_chains(entries@)[i]).len() > 0 by {
                        entries@[i].chain.lemma_view();
                    }
                }
                seen.insert(id);
                Some(id)
            },
            BTreeNode::Internal { version, entries, rightmost_child } => {
                if h == 0 || !is_inner_sound(entries, lo, hi) {
                    return None;
                }
                let ghost kids = n[id]->kids;
                let ghost keys = n[id]->Internal_keys;
                let ghost m = (h - 1) as nat;
                let len: usize = entries.len();
                seen.insert(id);
                let ghost now = seen@;
                assert(are_new_trees(n, id, m, bound(lo), bound(hi), after, seen0, now, len + 1));
                let from = if len == 0 {
                    lo
                } else {
                    Some(&entries[len - 1].key)
                };
                assert(bound(from) == low(keys, bound(lo), len as int));
                assert(kid_after(n, kids, m, after, len as int) == after) by {
                    reveal(kid_after);
                }
                let mut next: u64 = match self.check_under(
                    pager,
                    rightmost_child.0,
                    h - 1,
                    from,
                    hi,
                    after,
                    seen,
                ) {
                    Some(first) => first,
                    None => {
                        proof {
                            lemma_bad_kid(
                                n,
                                id,
                                m,
                                bound(lo),
                                bound(hi),
                                after,
                                seen0,
                                now,
                                len as int,
                            );
                        }
                        return None;
                    },
                };
                proof {
                    lemma_next_kid(
                        n,
                        id,
                        m,
                        bound(lo),
                        bound(hi),
                        after,
                        seen0,
                        now,
                        len as int,
                        seen@,
                    );
                }
                let mut i: usize = len;
                while i > 0
                    invariant
                        pager.wf(),
                        n == nodes(pager.pages()),
                        seen0 == old(seen)@,
                        n[id] is Internal,
                        h > 0,
                        m == h - 1,
                        kids == n[id]->kids,
                        keys == n[id]->Internal_keys,
                        keys == inner_keys(entries@),
                        kids == inner_kids(entries@).push(rightmost_child.0),
                        i <= len == entries@.len(),
                        next == first_leaf(n, kids[i as int], m),
                        are_new_trees(
                            n,
                            id,
                            m,
                            bound(lo),
                            bound(hi),
                            after,
                            seen0,
                            seen@,
                            i as int,
                        ),
                    decreases i,
                {
                    let ghost now = seen@;
                    let k: usize = i - 1;
                    let from = if k == 0 {
                        lo
                    } else {
                        Some(&entries[k - 1].key)
                    };
                    assert(bound(from) == low(keys, bound(lo), k as int));
                    assert(kid_after(n, kids, m, after, k as int) == next) by {
                        reveal(kid_after);
                    }
                    match self.check_under(
                        pager,
                        entries[k].child_page_id.0,
                        h - 1,
                        from,
                        Some(&entries[k].key),
                        next,
                        seen,
                    ) {
                        Some(first) => {
                            next = first;
                        },
                        None => {
                            proof {
                                lemma_bad_kid(
                                    n,
                                    id,
                                    m,
                                    bound(lo),
                                    bound(hi),
                                    after,
                                    seen0,
                                    now,
                                    k as int,
                                );
                            }
                            return None;
                        },
                    }
                    proof {
                        lemma_next_kid(
                            n,
                            id,
                            m,
                            bound(lo),
                            bound(hi),
                            after,
                            seen0,
                            now,
                            k as int,
                            seen@,
                        );
                    }
                    i = k;
                }
                proof {
                    lemma_all_kids(n, id, m, bound(lo), bound(hi), after, seen0, seen@);
                }
                Some(next)
            },
        }
    }

    /// Whether an opened tree can be used: the pages under its root are a tree.
    pub fn is_sound(&self, pager: &Pager) -> (r: bool)
        requires
            pager.wf(),
        ensures
            r == exists|h: nat|
                tree(nodes(pager.pages()), self.root_page_id.0, h, None, None, 0),
    {
        let ghost n = nodes(pager.pages());
        let ghost root = self.root_page_id.0;
        let limit: usize = pager.slots.len();
        let mut id: u64 = self.root_page_id.0;
        let mut h: usize = 0;
        proof {
            assert forall|h0: nat| #[trigger] tree(n, root, h0, None, None, 0) implies exists|
                lo: Option<Seq<u8>>,
                hi: Option<Seq<u8>>,
                after: u64,
            | #[trigger] tree(n, id, (h0 - h) as nat, lo, hi, after) by {
                assert(tree(n, id, (h0 - h) as nat, None, None, 0));
            }
        }
        while h < limit
            invariant
                pager.wf(),
                n == nodes(pager.pages()),
                root == self.root_page_id.0,
                limit == pager.slots@.len(),
                h <= limit,
                forall|h0: nat| #[trigger]
                    tree(n, root, h0, None, None, 0) ==> h0 >= h && exists|
                        lo: Option<Seq<u8>>,
                        hi: Option<Seq<u8>>,
                        after: u64,
                    | #[trigger] tree(n, id, (h0 - h) as nat, lo, hi, after),
            decreases limit - h,
        {
            let node = match self.read_node(pager, PageId(id)) {
                Ok(node) => node,
                Err(_) => return false,
            };
            match &node {
                BTreeNode::Leaf { version, entries, next_leaf } => {
                    let mut seen: HashSet<u64> = HashSet::new();
                    let first = self.check_under(
                        pager,
                        self.root_page_id.0,
                        h,
                        None,
                        None,
                        0,
                        &mut seen,
                    );
                    return first.is_some();
                },
                BTreeNode::Internal { version, entries, rightmost_child } => {
                    let ghost id0 = id;
                    let ghost h1 = h;
                    id = if entries.len() == 0 {
                        rightmost_child.0
                    } else {
                        entries[0].child_page_id.0
                    };
                    h = h + 1;
                    proof {
                        assert(id == n[id0]->kids[0]);
                        assert forall|h0: nat| #[trigger]
                            tree(n, root, h0, None, None, 0) implies h0 >= h && exists|
                            lo: Option<Seq<u8>>,
                            hi: Option<Seq<u8>>,
                            after: u64,
                        | #[trigger] tree(n, id, (h0 - h) as nat, lo, hi, after) by {
                            let (lo, hi, after) = choose|
                                lo: Option<Seq<u8>>,
                                hi: Option<Seq<u8>>,
                                after: u64,
                            | #[trigger] tree(n, id0, (h0 - h1) as nat, lo, hi, after);
                            assert(tree(n, id0, (h0 - h1) as nat, lo, hi, after));
                            let kids = n[id0]->kids;
                            let keys = n[id0]->Internal_keys;
                            assert(tree(
                                n,
                                kids[0],
                                (h0 - h) as nat,
                                low(keys, lo, 0),
                                high(keys, hi, 0),
                                kid_after(n, kids, (h0 - h) as nat, after, 0),
                            ));
                        }
                    }
                },
            }
        }
        proof {
            assert forall|h0: nat| !(#[trigger] tree(n, root, h0, None, None, 0)) by {
                if tree(n, root, h0, None, None, 0) {
                    lemma_height(*pager, root, h0);
                }
            }
        }
        false
    }
}

} // verus!

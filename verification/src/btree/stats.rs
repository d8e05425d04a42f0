//! Statistics and verification of a paged B-tree.
use crate::btree::leaves::{flat_chains, flat_keys, leaves, leaves_upto, lemma_flat_add};
use crate::btree::node::{leaf_chains, leaf_keys, BTreeNode, LeafEntry, Node};
use crate::btree::paged::{nodes, PagedBTree};
use crate::btree::tree::{high, kid_after, low, tree, Nodes};
use crate::pager::{PageId, Pager};
use crate::table::{
    SizeStats, SpecialtyTableCapabilities, SpecialtyTableStats, TableCapabilities, TableEngineKind,
    TableError, TableResult, TableStatistics, VerificationReport,
};
use crate::txn::Version;
use crate::types::TableId;
use vstd::prelude::*;

verus! {

/// What a walk through a tree adds up.
#[derive(Clone, Copy, Debug, PartialEq, Eq, Structural)]
pub struct TreeStatistics {
    pub row_count: u64,
    pub total_size_bytes: u64,
    pub tree_depth: usize,
    pub internal_node_count: u64,
    pub leaf_node_count: u64,
    pub key_min_size: usize,
    pub key_max_size: usize,
    pub key_total_size: u64,
    pub value_min_size: usize,
    pub value_max_size: usize,
    pub value_total_size: u64,
}

/// The sum, or the largest number where it does not fit.
pub open spec fn sum64(a: u64, b: int) -> u64 {
    if a + b <= u64::MAX {
        (a + b) as u64
    } else {
        u64::MAX
    }
}

/// The number after `n`, or the largest one.
pub open spec fn next_depth(n: usize) -> usize {
    if n < usize::MAX {
        (n + 1) as usize
    } else {
        n
    }
}

/// The smaller one of two numbers.
pub open spec fn smaller(a: usize, b: int) -> usize {
    if b < a {
        b as usize
    } else {
        a
    }
}

/// The larger one of two numbers.
pub open spec fn larger(a: usize, b: int) -> usize {
    if b > a {
        b as usize
    } else {
        a
    }
}

/// The sums after a page at some depth was entered.
pub open spec fn with_page(
    s: TreeStatistics,
    depth: usize,
    page_size: u64,
    is_leaf: bool,
) -> TreeStatistics {
    TreeStatistics {
        tree_depth: larger(s.tree_depth, depth as int),
        total_size_bytes: sum64(s.total_size_bytes, page_size as int),
        internal_node_count: if is_leaf {
            s.internal_node_count
        } else {
            sum64(s.internal_node_count, 1)
        },
        leaf_node_count: if is_leaf {
            sum64(s.leaf_node_count, 1)
        } else {
            s.leaf_node_count
        },
        ..s
    }
}

/// The sums after one entry of a leaf: it counts unless its newest version is a tombstone.
pub open spec fn with_entry(s: TreeStatistics, key: Seq<u8>, vs: Seq<Version>) -> TreeStatistics {
    if vs[0].value.len() == 0 {
        s
    } else {
        TreeStatistics {
            row_count: sum64(s.row_count, 1),
            key_min_size: smaller(s.key_min_size, key.len() as int),
            key_max_size: larger(s.key_max_size, key.len() as int),
            key_total_size: sum64(s.key_total_size, key.len() as int),
            value_min_size: smaller(s.value_min_size, vs[0].value.len() as int),
            value_max_size: larger(s.value_max_size, vs[0].value.len() as int),
            value_total_size: sum64(s.value_total_size, vs[0].value.len() as int),
            ..s
        }
    }
}

/// The sums after the first `k` entries of a leaf.
pub open spec fn with_entries(
    s: TreeStatistics,
    keys: Seq<Seq<u8>>,
    chains: Seq<Seq<Version>>,
    k: int,
) -> TreeStatistics
    decreases k,
{
    if k <= 0 {
        s
    } else {
        with_entry(with_entries(s, keys, chains, k - 1), keys[k - 1], chains[k - 1])
    }
}

/// The sums after the tree of height `h` under page `id`.
pub open spec fn with_tree(
    s: TreeStatistics,
    n: Nodes,
    id: u64,
    h: nat,
    depth: usize,
    page_size: u64,
) -> TreeStatistics
    decreases h, 1int, 0int,
{
    match n[id] {
        Node::Leaf { version, keys, chains, next } => with_entries(
            with_page(s, depth, page_size, true),
            keys,
            chains,
            keys.len() as int,
        ),
        Node::Internal { version, keys, kids } => {
            let entered = with_page(s, depth, page_size, false);
            if h == 0 {
                entered
            } else {
                with_kids(
                    entered,
                    n,
                    kids,
                    (h - 1) as nat,
                    next_depth(depth),
                    page_size,
                    kids.len() as int,
                )
            }
        },
    }
}

/// The sums after the first `k` of several trees.
pub open spec fn with_kids(
    s: TreeStatistics,
    n: Nodes,
    kids: Seq<u64>,
    g: nat,
    depth: usize,
    page_size: u64,
    k: int,
) -> TreeStatistics
    decreases g + 1, 0int, k,
{
    if k <= 0 {
        s
    } else {
        with_tree(
            with_kids(s, n, kids, g, depth, page_size, k - 1),
            n,
            kids[k - 1],
            g,
            depth,
            page_size,
        )
    }
}

/// The number of keys in the leaves of a tree.
pub open spec fn entry_count(n: Nodes, id: u64, h: nat) -> int
    decreases h, 1int, 0int,
{
    match n[id] {
        Node::Leaf { version, keys, chains, next } => keys.len() as int,
        Node::Internal { version, keys, kids } => if h == 0 {
            0
        } else {
            entry_count_upto(n, kids, (h - 1) as nat, kids.len() as int)
        },
    }
}

/// The number of keys in the leaves of the first `k` of several trees.
pub open spec fn entry_count_upto(n: Nodes, kids: Seq<u64>, g: nat, k: int) -> int
    decreases g + 1, 0int, k,
{
    if k <= 0 {
        0
    } else {
        entry_count_upto(n, kids, g, k - 1) + entry_count(n, kids[k - 1], g)
    }
}

/// The number of nodes of a tree.
pub open spec fn node_count(n: Nodes, id: u64, h: nat) -> int
    decreases h, 1int, 0int,
{
    if h == 0 || !(n[id] is Internal) {
        1
    } else {
        1 + node_count_upto(n, n[id]->kids, (h - 1) as nat, n[id]->kids.len() as int)
    }
}

/// The number of nodes of the first `k` of several trees.
pub open spec fn node_count_upto(n: Nodes, kids: Seq<u64>, g: nat, k: int) -> int
    decreases g + 1, 0int, k,
{
    if k <= 0 {
        0
    } else {
        node_count_upto(n, kids, g, k - 1) + node_count(n, kids[k - 1], g)
    }
}

proof fn lemma_counts(n: Nodes, id: u64, h: nat)
    ensures
        entry_count(n, id, h) >= 0,
        node_count(n, id, h) >= 1,
    decreases h, 1int, 0int,
{
    if h > 0 && n[id] is Internal {
        lemma_counts_upto(n, n[id]->kids, (h - 1) as nat, n[id]->kids.len() as int);
    }
}

proof fn lemma_counts_upto(n: Nodes, kids: Seq<u64>, g: nat, k: int)
    ensures
        entry_count_upto(n, kids, g, k) >= 0,
        node_count_upto(n, kids, g, k) >= 0,
    decreases g + 1, 0int, k,
{
    if k > 0 {
        lemma_counts_upto(n, kids, g, k - 1);
        lemma_counts(n, kids[k - 1], g);
    }
}

impl TreeStatistics {
    /// The sums before anything was added.
    pub fn new() -> (r: Self)
        ensures
            r == empty_sums(),
    {
        TreeStatistics {
            row_count: 0,
            total_size_bytes: 0,
            tree_depth: 0,
            internal_node_count: 0,
            leaf_node_count: 0,
            key_min_size: usize::MAX,
            key_max_size: 0,
            key_total_size: 0,
            value_min_size: usize::MAX,
            value_max_size: 0,
            value_total_size: 0,
        }
    }
}

/// The sums before anything was added.
pub open spec fn empty_sums() -> TreeStatistics {
    TreeStatistics {
        row_count: 0,
        total_size_bytes: 0,
        tree_depth: 0,
        internal_node_count: 0,
        leaf_node_count: 0,
        key_min_size: usize::MAX,
        key_max_size: 0,
        key_total_size: 0,
        value_min_size: usize::MAX,
        value_max_size: 0,
        value_total_size: 0,
    }
}

/// The sums of a whole tree, with zero for the smallest sizes where it has no rows.
pub open spec fn tree_sums(n: Nodes, id: u64, h: nat, page_size: u64) -> TreeStatistics {
    let s = with_tree(empty_sums(), n, id, h, 0, page_size);
    if s.row_count == 0 {
        TreeStatistics { key_min_size: 0, value_min_size: 0, ..s }
    } else {
        s
    }
}

/// The sums but for what goes by pages.
pub open spec fn row_sums(s: TreeStatistics) -> TreeStatistics {
    TreeStatistics {
        total_size_bytes: 0,
        tree_depth: 0,
        internal_node_count: 0,
        leaf_node_count: 0,
        ..s
    }
}

proof fn lemma_row_sums(
    s: TreeStatistics,
    keys: Seq<Seq<u8>>,
    chains: Seq<Seq<Version>>,
    k: int,
)
    ensures
        row_sums(with_entries(s, keys, chains, k)) == with_entries(row_sums(s), keys, chains, k),
    decreases k,
{
    if k > 0 {
        lemma_row_sums(s, keys, chains, k - 1);
    }
}

proof fn lemma_entries_in_a_row(
    s: TreeStatistics,
    a: Seq<Seq<u8>>,
    b: Seq<Seq<u8>>,
    ca: Seq<Seq<Version>>,
    cb: Seq<Seq<Version>>,
    k: int,
)
    requires
        a.len() == ca.len(),
        b.len() == cb.len(),
        0 <= k <= b.len(),
    ensures
        with_entries(s, a + b, ca + cb, a.len() + k) == with_entries(
            with_entries(s, a, ca, a.len() as int),
            b,
            cb,
            k,
        ),
    decreases k,
{
    if k > 0 {
        lemma_entries_in_a_row(s, a, b, ca, cb, k - 1);
        assert((a + b)[a.len() + k - 1] == b[k - 1]);
        assert((ca + cb)[a.len() + k - 1] == cb[k - 1]);
    } else {
        lemma_front_entries(s, a, b, ca, cb, a.len() as int);
    }
}

proof fn lemma_front_entries(
    s: TreeStatistics,
    a: Seq<Seq<u8>>,
    b: Seq<Seq<u8>>,
    ca: Seq<Seq<Version>>,
    cb: Seq<Seq<Version>>,
    k: int,
)
    requires
        a.len() == ca.len(),
        0 <= k <= a.len(),
    ensures
        with_entries(s, a + b, ca + cb, k) == with_entries(s, a, ca, k),
    decreases k,
{
    if k > 0 {
        lemma_front_entries(s, a, b, ca, cb, k - 1);
        assert((a + b)[k - 1] == a[k - 1]);
        assert((ca + cb)[k - 1] == ca[k - 1]);
    }
}

/// Counting goes over every key of the leaves, and what the statistics say of rows is what the
/// entries of the leaves give, one after the other in the order of their keys.
pub proof fn law_tree_is_summed_by_its_leaves(
    s: TreeStatistics,
    n: Nodes,
    id: u64,
    h: nat,
    lo: Option<Seq<u8>>,
    hi: Option<Seq<u8>>,
    after: u64,
    depth: usize,
    page_size: u64,
)
    requires
        tree(n, id, h, lo, hi, after),
    ensures
        ({
            let keys = flat_keys(n, leaves(n, id, h));
            let chains = flat_chains(n, leaves(n, id, h));
            &&& keys.len() == chains.len()
            &&& entry_count(n, id, h) == keys.len()
            &&& row_sums(with_tree(s, n, id, h, depth, page_size)) == with_entries(
                row_sums(s),
                keys,
                chains,
                keys.len() as int,
            )
        }),
    decreases h, 1int, 0int,
{
    match n[id] {
        Node::Leaf { version, keys, chains, next } => {
            let ls = leaves(n, id, h);
            assert(ls.drop_last() =~= Seq::empty());
            assert(flat_keys(n, ls.drop_last()) =~= Seq::empty());
            assert(flat_chains(n, ls.drop_last()) =~= Seq::empty());
            assert(flat_keys(n, ls) =~= keys);
            assert(flat_chains(n, ls) =~= chains);
            lemma_row_sums(with_page(s, depth, page_size, true), keys, chains, keys.len() as int);
        },
        Node::Internal { version, keys, kids } => {
            let entered = with_page(s, depth, page_size, false);
            lemma_kids_summed(
                entered,
                n,
                id,
                h,
                lo,
                hi,
                after,
                next_depth(depth),
                page_size,
                kids.len() as int,
            );
            assert(row_sums(entered) == row_sums(s));
        },
    }
}

proof fn lemma_kids_summed(
    s: TreeStatistics,
    n: Nodes,
    id: u64,
    h: nat,
    lo: Option<Seq<u8>>,
    hi: Option<Seq<u8>>,
    after: u64,
    depth: usize,
    page_size: u64,
    k: int,
)
    requires
        tree(n, id, h, lo, hi, after),
        n[id] is Internal,
        0 <= k <= n[id]->kids.len(),
    ensures
        ({
            let kids = n[id]->kids;
            let g = (h - 1) as nat;
            let ls = leaves_upto(n, kids, g, k);
            let keys = flat_keys(n, ls);
            let chains = flat_chains(n, ls);
            &&& keys.len() == chains.len()
            &&& entry_count_upto(n, kids, g, k) == keys.len()
            &&& row_sums(with_kids(s, n, kids, g, depth, page_size, k)) == with_entries(
                row_sums(s),
                keys,
                chains,
                keys.len() as int,
            )
        }),
    decreases h, 0int, k,
{
    let kids = n[id]->kids;
    let keys = n[id]->Internal_keys;
    let g = (h - 1) as nat;
    if k > 0 {
        lemma_kids_summed(s, n, id, h, lo, hi, after, depth, page_size, k - 1);
        let kid = kids[k - 1];
        assert(tree(
            n,
            kid,
            g,
            low(keys, lo, k - 1),
            high(keys, hi, k - 1),
            kid_after(n, kids, g, after, k - 1),
        ));
        let before = with_kids(s, n, kids, g, depth, page_size, k - 1);
        law_tree_is_summed_by_its_leaves(
            before,
            n,
            kid,
            g,
            low(keys, lo, k - 1),
            high(keys, hi, k - 1),
            kid_after(n, kids, g, after, k - 1),
            depth,
            page_size,
        );
        let a = leaves_upto(n, kids, g, k - 1);
        let b = leaves(n, kid, g);
        lemma_flat_add(n, a, b);
        lemma_entries_in_a_row(
            row_sums(s),
            flat_keys(n, a),
            flat_keys(n, b),
            flat_chains(n, a),
            flat_chains(n, b),
            flat_keys(n, b).len() as int,
        );
    }
}

proof fn lemma_page_sums(
    s: TreeStatistics,
    keys: Seq<Seq<u8>>,
    chains: Seq<Seq<Version>>,
    k: int,
)
    ensures
        ({
            let t = with_entries(s, keys, chains, k);
            &&& t.leaf_node_count == s.leaf_node_count
            &&& t.internal_node_count == s.internal_node_count
            &&& t.total_size_bytes == s.total_size_bytes
            &&& t.tree_depth == s.tree_depth
        }),
    decreases k,
{
    if k > 0 {
        lemma_page_sums(s, keys, chains, k - 1);
    }
}

/// The statistics count every leaf, take one page for each leaf and each internal node, and are as
/// deep as the tree is high, as far as the numbers reach.
pub proof fn law_pages_are_summed(
    s: TreeStatistics,
    n: Nodes,
    id: u64,
    h: nat,
    lo: Option<Seq<u8>>,
    hi: Option<Seq<u8>>,
    after: u64,
    depth: usize,
    page_size: u64,
)
    requires
        tree(n, id, h, lo, hi, after),
        depth + h <= usize::MAX,
    ensures
        ({
            let t = with_tree(s, n, id, h, depth, page_size);
            let all = leaves(n, id, h).len() as int;
            let inner = node_count(n, id, h) - all;
            &&& inner >= 0
            &&& t.leaf_node_count == sum64(s.leaf_node_count, all)
            &&& t.internal_node_count == sum64(s.internal_node_count, inner)
            &&& t.total_size_bytes == sum64(s.total_size_bytes, page_size * (all + inner))
            &&& t.tree_depth == larger(s.tree_depth, depth + h)
        }),
    decreases h, 1int, 0int,
{
    match n[id] {
        Node::Leaf { version, keys, chains, next } => {
            lemma_page_sums(with_page(s, depth, page_size, true), keys, chains, keys.len() as int);
            assert(page_size * 1 == page_size);
        },
        Node::Internal { version, keys, kids } => {
            let entered = with_page(s, depth, page_size, false);
            lemma_kid_pages(
                entered,
                n,
                id,
                h,
                lo,
                hi,
                after,
                next_depth(depth),
                page_size,
                kids.len() as int,
            );
            let below = node_count_upto(n, kids, (h - 1) as nat, kids.len() as int);
            lemma_counts_upto(n, kids, (h - 1) as nat, kids.len() as int);
            assert(page_size * below + page_size == page_size * (below + 1)
                && page_size * below >= 0) by (nonlinear_arith)
                requires
                    below >= 0,
            ;
        },
    }
}

proof fn lemma_kid_pages(
    s: TreeStatistics,
    n: Nodes,
    id: u64,
    h: nat,
    lo: Option<Seq<u8>>,
    hi: Option<Seq<u8>>,
    after: u64,
    depth: usize,
    page_size: u64,
    k: int,
)
    requires
        tree(n, id, h, lo, hi, after),
        n[id] is Internal,
        0 <= k <= n[id]->kids.len(),
        depth + h - 1 <= usize::MAX,
    ensures
        ({
            let kids = n[id]->kids;
            let g = (h - 1) as nat;
            let t = with_kids(s, n, kids, g, depth, page_size, k);
            let all = leaves_upto(n, kids, g, k).len() as int;
            let inner = node_count_upto(n, kids, g, k) - all;
            &&& inner >= 0
            &&& t.leaf_node_count == sum64(s.leaf_node_count, all)
            &&& t.internal_node_count == sum64(s.internal_node_count, inner)
            &&& t.total_size_bytes == sum64(s.total_size_bytes, page_size * (all + inner))
            &&& t.tree_depth == (if k > 0 {
                larger(s.tree_depth, depth + g)
            } else {
                s.tree_depth
            })
        }),
    decreases h, 0int, k,
{
    let kids = n[id]->kids;
    let keys = n[id]->Internal_keys;
    let g = (h - 1) as nat;
    if k > 0 {
        lemma_kid_pages(s, n, id, h, lo, hi, after, depth, page_size, k - 1);
        let kid = kids[k - 1];
        assert(tree(
            n,
            kid,
            g,
            low(keys, lo, k - 1),
            high(keys, hi, k - 1),
            kid_after(n, kids, g, after, k - 1),
        ));
        law_pages_are_summed(
            with_kids(s, n, kids, g, depth, page_size, k - 1),
            n,
            kid,
            g,
            low(keys, lo, k - 1),
            high(keys, hi, k - 1),
            kid_after(n, kids, g, after, k - 1),
            depth,
            page_size,
        );
        let a = node_count_upto(n, kids, g, k - 1);
        let b = node_count(n, kid, g);
        lemma_counts_upto(n, kids, g, k - 1);
        lemma_counts(n, kid, g);
        assert(page_size * a + page_size * b == page_size * (a + b) && page_size * a >= 0
            && page_size * b >= 0) by (nonlinear_arith)
            requires
                a >= 0,
                b >= 0,
        ;
    } else {
        assert(page_size * 0 == 0);
    }
}

/// An entry is a row if its newest version holds a value. There are as many rows as such entries,
/// the sizes of all of them lie between the smallest and the largest, which some of them have, and
/// together they give the totals, as far as the numbers reach.
pub proof fn law_rows_are_summed(keys: Seq<Seq<u8>>, chains: Seq<Seq<Version>>, k: int)
    requires
        0 <= k <= keys.len(),
        keys.len() == chains.len(),
        forall|i: int|
            0 <= i < k ==> (#[trigger] keys[i]).len() <= usize::MAX && chains[i][0].value.len()
                <= usize::MAX,
    ensures
        ({
            let s = with_entries(empty_sums(), keys, chains, k);
            let rows = Seq::new(k as nat, |i: int| i).filter(
                |i: int| chains[i][0].value.len() > 0,
            );
            &&& s.row_count == sum64(0, rows.len() as int)
            &&& s.key_total_size == sum64(0, rows.map_values(|i: int| keys[i]).flatten().len() as int)
            &&& s.value_total_size == sum64(
                0,
                rows.map_values(|i: int| chains[i][0].value).flatten().len() as int,
            )
            &&& forall|i: int|
                0 <= i < rows.len() ==> s.key_min_size <= keys[#[trigger] rows[i]].len()
                    <= s.key_max_size && s.value_min_size <= chains[rows[i]][0].value.len()
                    <= s.value_max_size
            &&& rows.len() > 0 ==> exists|i: int|
                0 <= i < rows.len() && keys[#[trigger] rows[i]].len() == s.key_min_size
            &&& rows.len() > 0 ==> exists|i: int|
                0 <= i < rows.len() && keys[#[trigger] rows[i]].len() == s.key_max_size
            &&& rows.len() > 0 ==> exists|i: int|
                0 <= i < rows.len() && chains[#[trigger] rows[i]][0].value.len()
                    == s.value_min_size
            &&& rows.len() > 0 ==> exists|i: int|
                0 <= i < rows.len() && chains[#[trigger] rows[i]][0].value.len()
                    == s.value_max_size
        }),
    decreases k,
{
    reveal(Seq::filter);
    let is_row = |i: int| chains[i][0].value.len() > 0;
    let key = |i: int| keys[i];
    let value = |i: int| chains[i][0].value;
    let numbers = Seq::new(k as nat, |i: int| i);
    let rows = numbers.filter(is_row);
    if k > 0 {
        law_rows_are_summed(keys, chains, k - 1);
        let fewer = Seq::new((k - 1) as nat, |i: int| i);
        assert(numbers.drop_last() =~= fewer);
        assert(numbers.last() == k - 1);
        let before = fewer.filter(is_row);
        if is_row(k - 1) {
            assert(rows == before.push(k - 1));
            assert(rows.map_values(key) =~= before.map_values(key).push(keys[k - 1]));
            assert(rows.map_values(value) =~= before.map_values(value).push(
                chains[k - 1][0].value,
            ));
            before.map_values(key).lemma_flatten_push(keys[k - 1]);
            before.map_values(value).lemma_flatten_push(chains[k - 1][0].value);
            assert(rows[rows.len() - 1] == k - 1);
            assert(keys[k - 1].len() <= usize::MAX);
            let s0 = with_entries(empty_sums(), keys, chains, k - 1);
            let s = with_entries(empty_sums(), keys, chains, k);
            assert forall|i: int| 0 <= i < rows.len() implies s.key_min_size
                <= keys[#[trigger] rows[i]].len() <= s.key_max_size && s.value_min_size
                <= chains[rows[i]][0].value.len() <= s.value_max_size by {
                if i < before.len() {
                    assert(rows[i] == before[i]);
                }
            }
            assert forall|i: int| 0 <= i < before.len() implies rows[i] == #[trigger] before[i] by {}
            if before.len() > 0 {
                let i1 = choose|i: int|
                    0 <= i < before.len() && keys[#[trigger] before[i]].len() == s0.key_min_size;
                let i2 = choose|i: int|
                    0 <= i < before.len() && keys[#[trigger] before[i]].len() == s0.key_max_size;
                let i3 = choose|i: int|
                    0 <= i < before.len() && chains[#[trigger] before[i]][0].value.len()
                        == s0.value_min_size;
                let i4 = choose|i: int|
                    0 <= i < before.len() && chains[#[trigger] before[i]][0].value.len()
                        == s0.value_max_size;
                assert(rows[i1] == before[i1] && rows[i2] == before[i2] && rows[i3] == before[i3]
                    && rows[i4] == before[i4]);
            } else {
                lemma_no_rows(keys, chains, k - 1);
            }
        } else {
            assert(rows == before);
        }
    } else {
        assert(rows.map_values(key) =~= Seq::empty());
        assert(rows.map_values(value) =~= Seq::empty());
    }
}

proof fn lemma_no_rows(keys: Seq<Seq<u8>>, chains: Seq<Seq<Version>>, k: int)
    requires
        0 <= k,
        Seq::new(k as nat, |i: int| i).filter(|i: int| chains[i][0].value.len() > 0).len() == 0,
    ensures
        with_entries(empty_sums(), keys, chains, k) == empty_sums(),
    decreases k,
{
    reveal(Seq::filter);
    if k > 0 {
        let numbers = Seq::new(k as nat, |i: int| i);
        assert(numbers.drop_last() =~= Seq::new((k - 1) as nat, |i: int| i));
        assert(numbers.last() == k - 1);
        lemma_no_rows(keys, chains, k - 1);
    }
}

fn add_entries(stats: TreeStatistics, entries: &Vec<LeafEntry>) -> (r: TreeStatistics)
    ensures
        r == with_entries(
            stats,
            leaf_keys(entries@),
            leaf_chains(entries@),
            entries@.len() as int,
        ),
{
    let ghost keys = leaf_keys(entries@);
    let ghost chains = leaf_chains(entries@);
    let mut s = stats;
    let n: usize = entries.len();
    let mut i: usize = 0;
    while i < n
        invariant
            i <= n == entries@.len(),
            keys == leaf_keys(entries@),
            chains == leaf_chains(entries@),
            s == with_entries(stats, keys, chains, i as int),
        decreases n - i,
    {
        let entry = &entries[i];
        proof {
            entry.chain.lemma_view();
        }
        let value_size: usize = entry.chain.value.len();
        if value_size > 0 {
            let key_size: usize = entry.key.len();
            s.row_count = s.row_count.saturating_add(1);
            if key_size < s.key_min_size {
                s.key_min_size = key_size;
            }
            if key_size > s.key_max_size {
                s.key_max_size = key_size;
            }
            s.key_total_size = s.key_total_size.saturating_add(key_size as u64);
            if value_size < s.value_min_size {
                s.value_min_size = value_size;
            }
            if value_size > s.value_max_size {
                s.value_max_size = value_size;
            }
            s.value_total_size = s.value_total_size.saturating_add(value_size as u64);
        }
        i += 1;
    }
    s
}

impl PagedBTree {
    /// The sums of the whole tree.
    pub fn collect_tree_statistics(&self, pager: &Pager) -> (r: TableResult<TreeStatistics>)
        requires
            self.wf(pager),
        ensures
            r == Ok::<TreeStatistics, TableError>(
                tree_sums(
                    nodes(pager.pages()),
                    self.root_page_id.0,
                    self.height@,
                    pager.size.bytes() as u64,
                ),
            ),
    {
        let page_size: u64 = pager.page_size().to_u32() as u64;
        match self.collect_node_statistics(
            pager,
            self.root_page_id,
            0,
            TreeStatistics::new(),
            page_size,
            Ghost(self.height@),
            Ghost(None),
            Ghost(None),
            Ghost(0),
        ) {
            Ok(s) => {
                let mut s = s;
                if s.row_count == 0 {
                    s.key_min_size = 0;
                    s.value_min_size = 0;
                }
                Ok(s)
            },
            Err(e) => Err(e),
        }
    }

    fn collect_node_statistics(
        &self,
        pager: &Pager,
        page_id: PageId,
        depth: usize,
        stats: TreeStatistics,
        page_size: u64,
        Ghost(h): Ghost<nat>,
        Ghost(lo): Ghost<Option<Seq<u8>>>,
        Ghost(hi): Ghost<Option<Seq<u8>>>,
        Ghost(after): Ghost<u64>,
    ) -> (r: TableResult<TreeStatistics>)
        requires
            pager.wf(),
            tree(nodes(pager.pages()), page_id.0, h, lo, hi, after),
        ensures
            r == Ok::<TreeStatistics, TableError>(
                with_tree(stats, nodes(pager.pages()), page_id.0, h, depth, page_size),
            ),
        decreases h,
    {
        let ghost n = nodes(pager.pages());
        let node = match self.read_node(pager, page_id) {
            Ok(x) => x,
            Err(e) => {
                return Err(e);
            },
        };
        let mut s = stats;
        if depth > s.tree_depth {
            s.tree_depth = depth;
        }
        s.total_size_bytes = s.total_size_bytes.saturating_add(page_size);
        match node {
            BTreeNode::Internal { version: _, entries, rightmost_child } => {
                s.internal_node_count = s.internal_node_count.saturating_add(1);
                let ghost entered = s;
                let ghost keys = n[page_id.0]->Internal_keys;
                let ghost kids = n[page_id.0]->kids;
                let ghost g = (h - 1) as nat;
                let below: usize = depth.saturating_add(1);
                let total: usize = entries.len();
                let mut i: usize = 0;
                while i < total
                    invariant
                        pager.wf(),
                        n == nodes(pager.pages()),
                        tree(n, page_id.0, h, lo, hi, after),
                        h > 0,
                        g == h - 1,
                        keys == n[page_id.0]->Internal_keys,
                        kids == n[page_id.0]->kids,
                        kids == crate::btree::node::inner_kids(entries@).push(rightmost_child.0),
                        i <= total == entries@.len(),
                        below == next_depth(depth),
                        s == with_kids(entered, n, kids, g, below, page_size, i as int),
                    decreases total - i,
                {
                    let kid = entries[i].child_page_id;
                    assert(kids[i as int] == kid.0);
                    match self.collect_node_statistics(
                        pager,
                        kid,
                        below,
                        s,
                        page_size,
                        Ghost(g),
                        Ghost(low(keys, lo, i as int)),
                        Ghost(high(keys, hi, i as int)),
                        Ghost(kid_after(n, kids, g, after, i as int)),
                    ) {
                        Ok(next) => {
                            s = next;
                        },
                        Err(e) => {
                            return Err(e);
                        },
                    }
                    i += 1;
                }
                assert(kids[total as int] == rightmost_child.0);
                self.collect_node_statistics(
                    pager,
                    rightmost_child,
                    below,
                    s,
                    page_size,
                    Ghost(g),
                    Ghost(low(keys, lo, total as int)),
                    Ghost(high(keys, hi, total as int)),
                    Ghost(kid_after(n, kids, g, after, total as int)),
                )
            },
            BTreeNode::Leaf { version: _, entries, next_leaf: _ } => {
                s.leaf_node_count = s.leaf_node_count.saturating_add(1);
                Ok(add_entries(s, &entries))
            },
        }
    }

    /// Counts the keys and the nodes of a tree.
    fn count_node(
        &self,
        pager: &Pager,
        page_id: PageId,
        Ghost(h): Ghost<nat>,
        Ghost(lo): Ghost<Option<Seq<u8>>>,
        Ghost(hi): Ghost<Option<Seq<u8>>>,
        Ghost(after): Ghost<u64>,
    ) -> (r: TableResult<(u64, u64)>)
        requires
            pager.wf(),
            tree(nodes(pager.pages()), page_id.0, h, lo, hi, after),
        ensures
            r == Ok::<(u64, u64), TableError>(
                (
                    sum64(0, entry_count(nodes(pager.pages()), page_id.0, h)),
                    sum64(0, node_count(nodes(pager.pages()), page_id.0, h)),
                ),
            ),
        decreases h,
    {
        let ghost n = nodes(pager.pages());
        let node = match self.read_node(pager, page_id) {
            Ok(x) => x,
            Err(e) => {
                return Err(e);
            },
        };
        match node {
            BTreeNode::Internal { version: _, entries, rightmost_child } => {
                let ghost keys = n[page_id.0]->Internal_keys;
                let ghost kids = n[page_id.0]->kids;
                let ghost g = (h - 1) as nat;
                let total: usize = entries.len();
                let mut rows: u64 = 0;
                let mut pages: u64 = 1;
                let mut i: usize = 0;
                while i < total
                    invariant
                        pager.wf(),
                        n == nodes(pager.pages()),
                        tree(n, page_id.0, h, lo, hi, after),
                        h > 0,
                        g == h - 1,
                        keys == n[page_id.0]->Internal_keys,
                        kids == n[page_id.0]->kids,
                        kids == crate::btree::node::inner_kids(entries@).push(rightmost_child.0),
                        i <= total == entries@.len(),
                        rows == sum64(0, entry_count_upto(n, kids, g, i as int)),
                        pages == sum64(1, node_count_upto(n, kids, g, i as int)),
                    decreases total - i,
                {
                    let kid = entries[i].child_page_id;
                    assert(kids[i as int] == kid.0);
                    proof {
                        lemma_counts_upto(n, kids, g, i as int);
                        lemma_counts(n, kid.0, g);
                    }
                    match self.count_node(
                        pager,
                        kid,
                        Ghost(g),
                        Ghost(low(keys, lo, i as int)),
                        Ghost(high(keys, hi, i as int)),
                        Ghost(kid_after(n, kids, g, after, i as int)),
                    ) {
                        Ok((a, b)) => {
                            rows = rows.saturating_add(a);
                            pages = pages.saturating_add(b);
                        },
                        Err(e) => {
                            return Err(e);
                        },
                    }
                    i += 1;
                }
                assert(kids[total as int] == rightmost_child.0);
                proof {
                    lemma_counts_upto(n, kids, g, total as int);
                    lemma_counts(n, rightmost_child.0, g);
                }
                match self.count_node(
                    pager,
                    rightmost_child,
                    Ghost(g),
                    Ghost(low(keys, lo, total as int)),
                    Ghost(high(keys, hi, total as int)),
                    Ghost(kid_after(n, kids, g, after, total as int)),
                ) {
                    Ok((a, b)) => Ok((rows.saturating_add(a), pages.saturating_add(b))),
                    Err(e) => Err(e),
                }
            },
            BTreeNode::Leaf { version: _, entries, next_leaf: _ } => Ok((entries.len() as u64, 1)),
        }
    }

    /// The number of keys in the leaves.
    pub fn count_entries(&self, pager: &Pager) -> (r: TableResult<u64>)
        requires
            self.wf(pager),
        ensures
            r == Ok::<u64, TableError>(
                sum64(
                    0,
                    entry_count(nodes(pager.pages()), self.root_page_id.0, self.height@),
                ),
            ),
    {
        match self.count_node(
            pager,
            self.root_page_id,
            Ghost(self.height@),
            Ghost(None),
            Ghost(None),
            Ghost(0),
        ) {
            Ok((rows, _)) => Ok(rows),
            Err(e) => Err(e),
        }
    }

    /// What is known of the table's contents.
    pub fn stats(&self, pager: &Pager) -> (r: TableResult<TableStatistics>)
        requires
            self.wf(pager),
        ensures
            r == Ok::<TableStatistics, TableError>(
                {
                    let s = tree_sums(
                        nodes(pager.pages()),
                        self.root_page_id.0,
                        self.height@,
                        pager.size.bytes() as u64,
                    );
                    TableStatistics {
                        row_count: Some(s.row_count),
                        page_count: None,
                        total_size_bytes: Some(s.total_size_bytes),
                        key_stats: Some(
                            SizeStats {
                                min_size: s.key_min_size,
                                max_size: s.key_max_size,
                                total_size: s.key_total_size,
                                count: s.row_count,
                            },
                        ),
                        value_stats: Some(
                            SizeStats {
                                min_size: s.value_min_size,
                                max_size: s.value_max_size,
                                total_size: s.value_total_size,
                                count: s.row_count,
                            },
                        ),
                        last_updated_lsn: None,
                    }
                },
            ),
    {
        match self.collect_tree_statistics(pager) {
            Ok(s) => Ok(
                TableStatistics {
                    row_count: Some(s.row_count),
                    page_count: None,
                    total_size_bytes: Some(s.total_size_bytes),
                    key_stats: Some(
                        SizeStats {
                            min_size: s.key_min_size,
                            max_size: s.key_max_size,
                            total_size: s.key_total_size,
                            count: s.row_count,
                        },
                    ),
                    value_stats: Some(
                        SizeStats {
                            min_size: s.value_min_size,
                            max_size: s.value_max_size,
                            total_size: s.value_total_size,
                            count: s.row_count,
                        },
                    ),
                    last_updated_lsn: None,
                },
            ),
            Err(e) => Err(e),
        }
    }

    /// What is known of the index.
    pub fn specialty_stats(&self, pager: &Pager) -> (r: TableResult<SpecialtyTableStats>)
        requires
            self.wf(pager),
        ensures
            r == Ok::<SpecialtyTableStats, TableError>(
                {
                    let count = sum64(
                        0,
                        entry_count(nodes(pager.pages()), self.root_page_id.0, self.height@),
                    );
                    SpecialtyTableStats {
                        entry_count: Some(count),
                        size_bytes: None,
                        distinct_keys: Some(count),
                        stale_entries: Some(0),
                        last_updated_lsn: None,
                    }
                },
            ),
    {
        match self.count_entries(pager) {
            Ok(count) => Ok(
                SpecialtyTableStats {
                    entry_count: Some(count),
                    size_bytes: None,
                    distinct_keys: Some(count),
                    stale_entries: Some(0),
                    last_updated_lsn: None,
                },
            ),
            Err(e) => Err(e),
        }
    }

    /// Reads every node of the tree.
    pub fn verify(&self, pager: &Pager) -> (r: TableResult<VerificationReport>)
        requires
            self.wf(pager),
        ensures
            r is Ok,
            r->Ok_0.checked_items == sum64(
                0,
                node_count(nodes(pager.pages()), self.root_page_id.0, self.height@),
            ),
            r->Ok_0.errors@.len() == 0,
            r->Ok_0.warnings@.len() == 0,
    {
        match self.count_node(
            pager,
            self.root_page_id,
            Ghost(self.height@),
            Ghost(None),
            Ghost(None),
            Ghost(0),
        ) {
            Ok((_, checked_items)) => Ok(
                VerificationReport { checked_items, errors: Vec::new(), warnings: Vec::new() },
            ),
            Err(e) => Err(e),
        }
    }

    /// The identifier of the table.
    pub fn table_id(&self) -> (r: TableId)
        ensures
            r == self.id,
    {
        self.id
    }

    /// The name of the table.
    pub fn name(&self) -> (r: &str)
        ensures
            r@ == self.name@,
    {
        self.name.as_str()
    }

    /// The engine of the table.
    pub fn kind(&self) -> (r: TableEngineKind)
        ensures
            r == TableEngineKind::BTree,
    {
        TableEngineKind::BTree
    }

    /// What the table can do.
    pub fn capabilities(&self) -> (r: TableCapabilities)
        ensures
            r == (TableCapabilities {
                ordered: true,
                point_lookup: true,
                prefix_scan: true,
                reverse_scan: true,
                range_delete: true,
                merge_operator: false,
                mvcc_native: true,
                append_optimized: false,
                memory_resident: false,
                disk_resident: true,
                supports_compression: true,
                supports_encryption: true,
            }),
    {
        TableCapabilities {
            ordered: true,
            point_lookup: true,
            prefix_scan: true,
            reverse_scan: true,
            range_delete: true,
            merge_operator: false,
            mvcc_native: true,
            append_optimized: false,
            memory_resident: false,
            disk_resident: true,
            supports_compression: true,
            supports_encryption: true,
        }
    }

    /// What the table can do as an index.
    pub fn specialty_capabilities(&self) -> (r: SpecialtyTableCapabilities)
        ensures
            r == (SpecialtyTableCapabilities {
                exact: true,
                approximate: false,
                ordered: true,
                sparse: false,
                supports_delete: true,
                supports_range_query: true,
                supports_prefix_query: true,
                supports_scoring: false,
                supports_incremental_rebuild: false,
                may_be_stale: false,
            }),
    {
        SpecialtyTableCapabilities {
            exact: true,
            approximate: false,
            ordered: true,
            sparse: false,
            supports_delete: true,
            supports_range_query: true,
            supports_prefix_query: true,
            supports_scoring: false,
            supports_incremental_rebuild: false,
            may_be_stale: false,
        }
    }
}

} // verus!

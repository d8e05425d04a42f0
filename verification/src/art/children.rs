//! The children of an inner node of a radix tree, in one of four layouts by their number.
use vstd::prelude::*;

verus! {

/// The largest number of children in the smallest layout.
pub const NODE4_MAX: usize = 4;

/// The largest number of children in the second layout.
pub const NODE16_MAX: usize = 16;

/// The largest number of children in the third layout.
pub const NODE48_MAX: usize = 48;

/// A map from bytes to children.
#[derive(Debug)]
pub enum Children<T> {
    /// Up to four children, each beside its byte.
    Node4 { keys: Vec<u8>, nodes: Vec<T> },
    /// Up to sixteen children, each beside its byte.
    Node16 { keys: Vec<u8>, nodes: Vec<T> },
    /// Up to 48 children, with the slot of each byte.
    Node48 { index: Vec<Option<u8>>, slots: Vec<Option<T>>, count: usize },
    /// A slot for every byte.
    Node256 { slots: Vec<Option<T>>, count: usize },
}

/// The number of slots that are taken.
pub open spec fn taken<T>(slots: Seq<Option<T>>) -> int
    decreases slots.len(),
{
    if slots.len() == 0 {
        0
    } else {
        taken(slots.drop_last()) + (if slots.last() is Some {
            1int
        } else {
            0int
        })
    }
}

proof fn lemma_taken_bounds<T>(slots: Seq<Option<T>>)
    ensures
        0 <= taken(slots) <= slots.len(),
        (forall|i: int| 0 <= i < slots.len() ==> #[trigger] slots[i] is Some) ==> taken(slots)
            == slots.len(),
        forall|i: int| 0 <= i < slots.len() && #[trigger] slots[i] is Some ==> taken(slots) > 0,
        (forall|i: int| 0 <= i < slots.len() ==> #[trigger] slots[i] is None) ==> taken(slots)
            == 0,
    decreases slots.len(),
{
    if slots.len() > 0 {
        lemma_taken_bounds(slots.drop_last());
        assert forall|i: int| 0 <= i < slots.len() && #[trigger] slots[i] is Some implies taken(
            slots,
        ) > 0 by {
            if i < slots.len() - 1 {
                assert(slots.drop_last()[i] is Some);
            }
        }
    }
}

proof fn lemma_taken_update<T>(slots: Seq<Option<T>>, i: int, t: Option<T>)
    requires
        0 <= i < slots.len(),
    ensures
        taken(slots.update(i, t)) == taken(slots) + (if t is Some {
            1int
        } else {
            0int
        }) - (if slots[i] is Some {
            1int
        } else {
            0int
        }),
    decreases slots.len(),
{
    let s2 = slots.update(i, t);
    if i == slots.len() - 1 {
        assert(s2.drop_last() =~= slots.drop_last());
    } else {
        lemma_taken_update(slots.drop_last(), i, t);
        assert(s2.drop_last() =~= slots.drop_last().update(i, t));
    }
}

/// The position of a byte in a list, or the length of the list.
pub open spec fn position(keys: Seq<u8>, b: u8) -> int
    decreases keys.len(),
{
    if keys.len() == 0 {
        0
    } else if keys[0] == b {
        0
    } else {
        1 + position(keys.drop_first(), b)
    }
}

proof fn lemma_position(keys: Seq<u8>, b: u8)
    ensures
        0 <= position(keys, b) <= keys.len(),
        position(keys, b) < keys.len() ==> keys[position(keys, b)] == b,
        forall|j: int| 0 <= j < position(keys, b) ==> #[trigger] keys[j] != b,
    decreases keys.len(),
{
    if keys.len() > 0 && keys[0] != b {
        lemma_position(keys.drop_first(), b);
        assert forall|j: int| 0 <= j < position(keys, b) implies #[trigger] keys[j] != b by {
            if j > 0 {
                assert(keys.drop_first()[j - 1] == keys[j]);
            }
        }
    }
}

proof fn lemma_position_is(keys: Seq<u8>, b: u8, i: int)
    requires
        0 <= i < keys.len(),
        keys[i] == b,
        keys.no_duplicates(),
    ensures
        position(keys, b) == i,
{
    lemma_position(keys, b);
    let p = position(keys, b);
    if p < i {
        assert(keys[p] != keys[i]);
    }
}

impl<T> Children<T> {
    /// No byte has two children, the counts are right and the layout is not too small.
    pub open spec fn wf(&self) -> bool {
        match self {
            Children::Node4 { keys, nodes } => keys@.len() == nodes@.len() && keys@.len()
                <= NODE4_MAX && keys@.no_duplicates(),
            Children::Node16 { keys, nodes } => keys@.len() == nodes@.len() && keys@.len()
                <= NODE16_MAX && keys@.no_duplicates(),
            Children::Node48 { index, slots, count } => {
                &&& index@.len() == 256
                &&& slots@.len() == NODE48_MAX
                &&& *count == taken(slots@)
                &&& forall|b: int|
                    0 <= b < 256 && #[trigger] index@[b] is Some ==> index@[b]->Some_0 < NODE48_MAX
                        && slots@[index@[b]->Some_0 as int] is Some
                &&& forall|a: int, b: int|
                    0 <= a < 256 && 0 <= b < 256 && a != b && #[trigger] index@[a] is Some
                        && #[trigger] index@[b] is Some ==> index@[a] != index@[b]
                &&& forall|i: int|
                    0 <= i < NODE48_MAX && #[trigger] slots@[i] is Some ==> exists|b: int|
                        0 <= b < 256 && #[trigger] index@[b] == Some(i as u8)
            },
            Children::Node256 { slots, count } => slots@.len() == 256 && *count == taken(slots@),
        }
    }

    /// There is a child for the byte.
    pub open spec fn has(&self, b: u8) -> bool {
        match self {
            Children::Node4 { keys, nodes } => position(keys@, b) < nodes@.len(),
            Children::Node16 { keys, nodes } => position(keys@, b) < nodes@.len(),
            Children::Node48 { index, slots, count } => index@[b as int] is Some,
            Children::Node256 { slots, count } => slots@[b as int] is Some,
        }
    }

    /// The child for the byte.
    pub open spec fn kid(&self, b: u8) -> T {
        match self {
            Children::Node4 { keys, nodes } => nodes@[position(keys@, b)],
            Children::Node16 { keys, nodes } => nodes@[position(keys@, b)],
            Children::Node48 { index, slots, count } => slots@[index@[b as int]->Some_0 as int]->Some_0,
            Children::Node256 { slots, count } => slots@[b as int]->Some_0,
        }
    }

    /// A child is smaller than what it is a child of.
    pub proof fn lemma_kid_decreases(&self, b: u8)
        requires
            self.wf(),
            self.has(b),
        ensures
            decreases_to!(self => self.kid(b)),
    {
        match self {
            Children::Node4 { keys, nodes } => {
                lemma_position(keys@, b);
                let i = position(keys@, b);
                assert(decreases_to!(nodes => nodes@[i]));
            },
            Children::Node16 { keys, nodes } => {
                lemma_position(keys@, b);
                let i = position(keys@, b);
                assert(decreases_to!(nodes => nodes@[i]));
            },
            Children::Node48 { index, slots, count } => {
                let i = index@[b as int]->Some_0 as int;
                assert(decreases_to!(slots => slots@[i]));
            },
            Children::Node256 { slots, count } => {
                assert(decreases_to!(slots => slots@[b as int]));
            },
        }
    }

    /// The two hold the same children.
    pub open spec fn same(&self, other: &Self) -> bool {
        forall|b: u8| #[trigger]
            self.has(b) == other.has(b) && (self.has(b) ==> self.kid(b) == other.kid(b))
    }

    /// The number of children.
    pub open spec fn size(&self) -> int {
        match self {
            Children::Node4 { keys, nodes } => nodes@.len() as int,
            Children::Node16 { keys, nodes } => nodes@.len() as int,
            Children::Node48 { index, slots, count } => *count as int,
            Children::Node256 { slots, count } => *count as int,
        }
    }

    /// There is no child exactly where the number of children is zero.
    pub proof fn lemma_size(&self)
        requires
            self.wf(),
        ensures
            self.size() == 0 <==> forall|b: u8| !#[trigger] self.has(b),
    {
        match self {
            Children::Node4 { keys, nodes } => {
                if self.size() > 0 {
                    lemma_position_is(keys@, keys@[0], 0);
                    assert(self.has(keys@[0]));
                } else {
                    assert forall|b: u8| !#[trigger] self.has(b) by {
                        lemma_position(keys@, b);
                    }
                }
            },
            Children::Node16 { keys, nodes } => {
                if self.size() > 0 {
                    lemma_position_is(keys@, keys@[0], 0);
                    assert(self.has(keys@[0]));
                } else {
                    assert forall|b: u8| !#[trigger] self.has(b) by {
                        lemma_position(keys@, b);
                    }
                }
            },
            Children::Node48 { index, slots, count } => {
                lemma_taken_bounds(slots@);
                if self.size() > 0 {
                    if forall|b: u8| !#[trigger] self.has(b) {
                        assert forall|i: int| 0 <= i < slots@.len() implies #[trigger] slots@[i]
                            is None by {
                            if slots@[i] is Some {
                                let b = choose|b: int|
                                    0 <= b < 256 && #[trigger] index@[b] == Some(i as u8);
                                assert(self.has(b as u8));
                            }
                        }
                    }
                } else {
                    assert forall|b: u8| !#[trigger] self.has(b) by {
                        if self.has(b) {
                            assert(slots@[index@[b as int]->Some_0 as int] is Some);
                        }
                    }
                }
            },
            Children::Node256 { slots, count } => {
                lemma_taken_bounds(slots@);
                if self.size() > 0 {
                    if forall|b: u8| !#[trigger] self.has(b) {
                        assert forall|i: int| 0 <= i < slots@.len() implies #[trigger] slots@[i]
                            is None by {
                            assert(!self.has(i as u8));
                        }
                    }
                }
            },
        }
    }

    /// No children, in the smallest layout.
    pub fn new_node4() -> (r: Self)
        ensures
            r.wf(),
            r is Node4,
            r.size() == 0,
            forall|b: u8| !#[trigger] r.has(b),
    {
        let r = Children::Node4 { keys: Vec::new(), nodes: Vec::new() };
        proof {
            r.lemma_size();
        }
        r
    }

    /// No children, in the third layout.
    fn new_node48() -> (r: Self)
        ensures
            r.wf(),
            r is Node48,
            r.size() == 0,
            forall|b: u8| !#[trigger] r.has(b),
    {
        let mut index: Vec<Option<u8>> = Vec::new();
        let mut slots: Vec<Option<T>> = Vec::new();
        let mut i: usize = 0;
        while i < 256
            invariant
                i <= 256,
                index@.len() == i,
                forall|j: int| 0 <= j < i ==> #[trigger] index@[j] is None,
            decreases 256 - i,
        {
            index.push(None);
            i += 1;
        }
        let mut k: usize = 0;
        while k < NODE48_MAX
            invariant
                k <= NODE48_MAX,
                slots@.len() == k,
                forall|j: int| 0 <= j < k ==> #[trigger] slots@[j] is None,
            decreases NODE48_MAX - k,
        {
            slots.push(None);
            k += 1;
        }
        proof {
            lemma_taken_bounds(slots@);
        }
        Children::Node48 { index, slots, count: 0 }
    }

    /// No children, in the largest layout.
    fn new_node256() -> (r: Self)
        ensures
            r.wf(),
            r is Node256,
            r.size() == 0,
            forall|b: u8| !#[trigger] r.has(b),
    {
        let mut slots: Vec<Option<T>> = Vec::new();
        let mut k: usize = 0;
        while k < 256
            invariant
                k <= 256,
                slots@.len() == k,
                forall|j: int| 0 <= j < k ==> #[trigger] slots@[j] is None,
            decreases 256 - k,
        {
            slots.push(None);
            k += 1;
        }
        proof {
            lemma_taken_bounds(slots@);
        }
        Children::Node256 { slots, count: 0 }
    }

    /// The number of children.
    pub fn count(&self) -> (r: usize)
        ensures
            r == self.size(),
    {
        match self {
            Children::Node4 { keys: _, nodes } => nodes.len(),
            Children::Node16 { keys: _, nodes } => nodes.len(),
            Children::Node48 { index: _, slots: _, count } => *count,
            Children::Node256 { slots: _, count } => *count,
        }
    }

    fn position_of(keys: &Vec<u8>, b: u8) -> (r: usize)
        ensures
            r == position(keys@, b),
            r <= keys@.len(),
    {
        let mut i: usize = 0;
        proof {
            assert(keys@.skip(0) =~= keys@);
        }
        while i < keys.len()
            invariant
                i <= keys@.len(),
                position(keys@, b) == i + position(keys@.skip(i as int), b),
            decreases keys@.len() - i,
        {
            proof {
                assert(keys@.skip(i as int)[0] == keys@[i as int]);
                assert(keys@.skip(i as int).drop_first() =~= keys@.skip(i + 1));
            }
            if keys[i] == b {
                return i;
            }
            i += 1;
        }
        assert(keys@.skip(i as int) =~= Seq::empty());
        i
    }

    /// The child for the byte.
    pub fn find_child(&self, b: u8) -> (r: Option<&T>)
        requires
            self.wf(),
        ensures
            r is Some <==> self.has(b),
            r matches Some(t) ==> *t == self.kid(b),
    {
        match self {
            Children::Node4 { keys, nodes } => {
                let i: usize = Self::position_of(keys, b);
                if i < nodes.len() {
                    Some(&nodes[i])
                } else {
                    None
                }
            },
            Children::Node16 { keys, nodes } => {
                let i: usize = Self::position_of(keys, b);
                if i < nodes.len() {
                    Some(&nodes[i])
                } else {
                    None
                }
            },
            Children::Node48 { index, slots, count: _ } => match index[b as usize] {
                Some(i) => slots[i as usize].as_ref(),
                None => None,
            },
            Children::Node256 { slots, count: _ } => slots[b as usize].as_ref(),
        }
    }

    /// Whether the layout has no room for one more child. The largest one always has.
    pub fn is_full(&self) -> (r: bool)
        requires
            self.wf(),
        ensures
            r == (match self {
                Children::Node4 { .. } => self.size() == NODE4_MAX,
                Children::Node16 { .. } => self.size() == NODE16_MAX,
                Children::Node48 { .. } => self.size() == NODE48_MAX,
                Children::Node256 { .. } => false,
            }),
    {
        proof {
            if let Children::Node48 { index, slots, count } = self {
                lemma_taken_bounds(slots@);
            }
        }
        match self {
            Children::Node4 { keys: _, nodes } => nodes.len() >= NODE4_MAX,
            Children::Node16 { keys: _, nodes } => nodes.len() >= NODE16_MAX,
            Children::Node48 { index: _, slots: _, count } => *count >= NODE48_MAX,
            Children::Node256 { .. } => false,
        }
    }

    /// The children with one more.
    pub open spec fn is_with(&self, before: &Self, b: u8, child: T) -> bool {
        forall|c: u8| #[trigger]
            self.has(c) == (c == b || before.has(c)) && (self.has(c) ==> self.kid(c) == (if c
                == b {
                child
            } else {
                before.kid(c)
            }))
    }

    /// Adds a child for a byte that has none, in the same layout.
    pub fn add_child(self, b: u8, child: T) -> (r: Self)
        requires
            self.wf(),
            !self.has(b),
            match self {
                Children::Node4 { .. } => self.size() < NODE4_MAX,
                Children::Node16 { .. } => self.size() < NODE16_MAX,
                Children::Node48 { .. } => self.size() < NODE48_MAX,
                Children::Node256 { .. } => true,
            },
        ensures
            r.wf(),
            r.is_with(&self, b, child),
            r.size() == self.size() + 1,
            r is Node4 <==> self is Node4,
            r is Node16 <==> self is Node16,
            r is Node48 <==> self is Node48,
    {
        match self {
            Children::Node4 { keys, nodes } => {
                let mut keys = keys;
                let mut nodes = nodes;
                let ghost k0 = keys@;
                keys.push(b);
                nodes.push(child);
                let r = Children::Node4 { keys, nodes };
                proof {
                    lemma_added(k0, b);
                    assert forall|c: u8| #[trigger]
                        r.has(c) == (c == b || self.has(c)) && (r.has(c) ==> r.kid(c) == (if c
                            == b {
                            child
                        } else {
                            self.kid(c)
                        })) by {
                        lemma_position(k0, c);
                        assert(position(keys@, c) == position(k0.push(b), c));
                    }
                }
                r
            },
            Children::Node16 { keys, nodes } => {
                let mut keys = keys;
                let mut nodes = nodes;
                let ghost k0 = keys@;
                keys.push(b);
                nodes.push(child);
                let r = Children::Node16 { keys, nodes };
                proof {
                    lemma_added(k0, b);
                    assert forall|c: u8| #[trigger]
                        r.has(c) == (c == b || self.has(c)) && (r.has(c) ==> r.kid(c) == (if c
                            == b {
                            child
                        } else {
                            self.kid(c)
                        })) by {
                        lemma_position(k0, c);
                        assert(position(keys@, c) == position(k0.push(b), c));
                    }
                }
                r
            },
            Children::Node48 { index, slots, count } => {
                let mut index = index;
                let mut slots = slots;
                let ghost index0 = index@;
                let ghost slots0 = slots@;
                let mut i: usize = 0;
                proof {
                    lemma_taken_bounds(slots@);
                }
                while i < NODE48_MAX && slots[i].is_some()
                    invariant
                        i <= NODE48_MAX,
                        slots@.len() == NODE48_MAX,
                        forall|j: int| 0 <= j < i ==> #[trigger] slots@[j] is Some,
                    decreases NODE48_MAX - i,
                {
                    i += 1;
                }
                assert(i < NODE48_MAX);
                index.set(b as usize, Some(i as u8));
                slots.set(i, Some(child));
                proof {
                    lemma_taken_update(slots0, i as int, Some(child));
                    assert forall|k: int| 0 <= k < NODE48_MAX && #[trigger] slots@[k] is Some implies exists|
                        a: int,
                    |
                        0 <= a < 256 && #[trigger] index@[a] == Some(k as u8) by {
                        if k == i {
                            assert(index@[b as int] == Some(k as u8));
                        } else {
                            let a = choose|a: int|
                                0 <= a < 256 && #[trigger] index0[a] == Some(k as u8);
                            assert(index@[a] == Some(k as u8));
                        }
                    }
                    assert forall|a: int|
                        0 <= a < 256 && #[trigger] index@[a] is Some implies index@[a]->Some_0
                        < NODE48_MAX && slots@[index@[a]->Some_0 as int] is Some by {
                        if a != b {
                            assert(index0[a] is Some);
                        }
                    }
                    assert forall|a: int, c: int|
                        0 <= a < 256 && 0 <= c < 256 && a != c && #[trigger] index@[a] is Some
                            && #[trigger] index@[c] is Some implies index@[a] != index@[c] by {
                        if a == b {
                            assert(index0[c] is Some);
                        } else if c == b {
                            assert(index0[a] is Some);
                        }
                    }
                }
                let r = Children::Node48 { index, slots, count: count + 1 };
                proof {
                    assert forall|c: u8| #[trigger]
                        r.has(c) == (c == b || self.has(c)) && (r.has(c) ==> r.kid(c) == (if c
                            == b {
                            child
                        } else {
                            self.kid(c)
                        })) by {
                        if c != b && self.has(c) {
                            assert(index0[c as int] is Some);
                        }
                    }
                }
                r
            },
            Children::Node256 { slots, count } => {
                let mut slots = slots;
                let ghost slots0 = slots@;
                slots.set(b as usize, Some(child));
                proof {
                    lemma_taken_update(slots0, b as int, Some(child));
                    lemma_taken_bounds(slots@);
                }
                Children::Node256 { slots, count: count + 1 }
            },
        }
    }

    /// The children without one.
    pub open spec fn is_without(&self, before: &Self, b: u8) -> bool {
        forall|c: u8| #[trigger]
            self.has(c) == (c != b && before.has(c)) && (self.has(c) ==> self.kid(c) == before.kid(
                c,
            ))
    }

    /// Takes the child for a byte out, in the same layout.
    pub fn remove_child(self, b: u8) -> (r: (Self, Option<T>))
        requires
            self.wf(),
        ensures
            r.0.wf(),
            r.0.is_without(&self, b),
            r.1 == (if self.has(b) {
                Some(self.kid(b))
            } else {
                None
            }),
            r.0.size() == self.size() - (if self.has(b) {
                1int
            } else {
                0int
            }),
            r.0 is Node4 <==> self is Node4,
            r.0 is Node16 <==> self is Node16,
            r.0 is Node48 <==> self is Node48,
    {
        match self {
            Children::Node4 { keys, nodes } => {
                let mut keys = keys;
                let mut nodes = nodes;
                let ghost k0 = keys@;
                let i: usize = Self::position_of(&keys, b);
                if i >= nodes.len() {
                    return (Children::Node4 { keys, nodes }, None);
                }
                let _ = keys.remove(i);
                let child = nodes.remove(i);
                let r = Children::Node4 { keys, nodes };
                proof {
                    lemma_removed(k0, b);
                    lemma_position(k0, b);
                    assert forall|c: u8| #[trigger]
                        r.has(c) == (c != b && self.has(c)) && (r.has(c) ==> r.kid(c) == self.kid(
                            c,
                        )) by {
                        lemma_position(k0, c);
                        assert(position(keys@, c) == position(k0.remove(i as int), c));
                    }
                }
                (r, Some(child))
            },
            Children::Node16 { keys, nodes } => {
                let mut keys = keys;
                let mut nodes = nodes;
                let ghost k0 = keys@;
                let i: usize = Self::position_of(&keys, b);
                if i >= nodes.len() {
                    return (Children::Node16 { keys, nodes }, None);
                }
                let _ = keys.remove(i);
                let child = nodes.remove(i);
                let r = Children::Node16 { keys, nodes };
                proof {
                    lemma_removed(k0, b);
                    lemma_position(k0, b);
                    assert forall|c: u8| #[trigger]
                        r.has(c) == (c != b && self.has(c)) && (r.has(c) ==> r.kid(c) == self.kid(
                            c,
                        )) by {
                        lemma_position(k0, c);
                        assert(position(keys@, c) == position(k0.remove(i as int), c));
                    }
                }
                (r, Some(child))
            },
            Children::Node48 { index, slots, count } => {
                let mut index = index;
                let mut slots = slots;
                let ghost index0 = index@;
                let ghost slots0 = slots@;
                match index[b as usize] {
                    None => (Children::Node48 { index, slots, count }, None),
                    Some(i) => {
                        proof {
                            assert(index0[b as int] is Some);
                            lemma_taken_update(slots0, i as int, None);
                            lemma_taken_bounds(slots0);
                        }
                        let mut child: Option<T> = None;
                        core::mem::swap(&mut child, &mut slots[i as usize]);
                        index.set(b as usize, None);
                        proof {
                            assert(slots@ =~= slots0.update(i as int, None));
                            assert forall|k: int| 0 <= k < NODE48_MAX && #[trigger] slots@[k]
                                is Some implies exists|a: int|
                                0 <= a < 256 && #[trigger] index@[a] == Some(k as u8) by {
                                assert(slots0[k] is Some);
                                let a = choose|a: int|
                                    0 <= a < 256 && #[trigger] index0[a] == Some(k as u8);
                                assert(index@[a] == Some(k as u8));
                            }
                            assert forall|a: int|
                                0 <= a < 256 && #[trigger] index@[a] is Some implies index@[a]->Some_0
                                < NODE48_MAX && slots@[index@[a]->Some_0 as int] is Some by {
                                assert(index0[a] is Some);
                            }
                            assert forall|a: int, c: int|
                                0 <= a < 256 && 0 <= c < 256 && a != c && #[trigger] index@[a]
                                    is Some && #[trigger] index@[c] is Some implies index@[a]
                                != index@[c] by {
                                assert(index0[a] is Some && index0[c] is Some);
                            }
                        }
                        let r = Children::Node48 { index, slots, count: count - 1 };
                        proof {
                            assert forall|c: u8| #[trigger]
                                r.has(c) == (c != b && self.has(c)) && (r.has(c) ==> r.kid(c)
                                    == self.kid(c)) by {
                                if c != b && self.has(c) {
                                    assert(index0[c as int] is Some);
                                    assert(index0[c as int] != index0[b as int]);
                                }
                            }
                        }
                        (r, child)
                    },
                }
            },
            Children::Node256 { slots, count } => {
                let mut slots = slots;
                let ghost slots0 = slots@;
                let mut child: Option<T> = None;
                core::mem::swap(&mut child, &mut slots[b as usize]);
                proof {
                    assert(slots@ =~= slots0.update(b as int, None));
                    lemma_taken_update(slots0, b as int, None);
                    lemma_taken_bounds(slots0);
                    lemma_taken_bounds(slots@);
                }
                if child.is_some() {
                    (Children::Node256 { slots, count: count - 1 }, child)
                } else {
                    assert(slots@ =~= slots0);
                    (Children::Node256 { slots, count }, None)
                }
            },
        }
    }

    /// The number of children that the layout takes.
    pub open spec fn limit(&self) -> int {
        match self {
            Children::Node4 { .. } => NODE4_MAX as int,
            Children::Node16 { .. } => NODE16_MAX as int,
            Children::Node48 { .. } => NODE48_MAX as int,
            Children::Node256 { .. } => 256,
        }
    }

    /// Moves all children from one layout to another.
    fn move_all(from: Self, to: Self) -> (r: Self)
        requires
            from.wf(),
            to.wf(),
            to.size() == 0,
            from.size() <= to.limit(),
        ensures
            r.wf(),
            r.same(&from),
            r.size() == from.size(),
            r is Node4 <==> to is Node4,
            r is Node16 <==> to is Node16,
            r is Node48 <==> to is Node48,
    {
        let ghost all = from;
        let mut rest = from;
        let mut r = to;
        let mut b: usize = 0;
        proof {
            to.lemma_size();
        }
        while b < 256
            invariant
                b <= 256,
                rest.wf(),
                r.wf(),
                r.size() + rest.size() == all.size(),
                all.size() <= r.limit(),
                r is Node4 <==> to is Node4,
                r is Node16 <==> to is Node16,
                r is Node48 <==> to is Node48,
                forall|c: u8| #[trigger]
                    rest.has(c) == (c >= b && all.has(c)) && (rest.has(c) ==> rest.kid(c)
                        == all.kid(c)),
                forall|c: u8| #[trigger]
                    r.has(c) == (c < b && all.has(c)) && (r.has(c) ==> r.kid(c) == all.kid(c)),
            decreases 256 - b,
        {
            let ghost rest0 = rest;
            let ghost r0 = r;
            proof {
                rest.lemma_size();
                r.lemma_size();
            }
            let (rest1, child) = rest.remove_child(b as u8);
            rest = rest1;
            proof {
                assert(rest0.has(b as u8) == all.has(b as u8));
                rest1.lemma_count();
            }
            match child {
                Some(t) => {
                    assert(!r.has(b as u8));
                    r = r.add_child(b as u8, t);
                },
                None => {},
            }
            proof {
                assert forall|c: u8| #[trigger]
                    rest.has(c) == (c >= b + 1 && all.has(c)) && (rest.has(c) ==> rest.kid(c)
                        == all.kid(c)) by {
                    assert(rest0.has(c) == (c >= b && all.has(c)));
                }
                assert forall|c: u8| #[trigger]
                    r.has(c) == (c < b + 1 && all.has(c)) && (r.has(c) ==> r.kid(c) == all.kid(
                        c,
                    )) by {
                    assert(r0.has(c) == (c < b && all.has(c)));
                    assert(rest0.has(c) == (c >= b && all.has(c)));
                }
            }
            b += 1;
        }
        proof {
            assert forall|c: u8| !#[trigger] rest.has(c) by {}
            rest.lemma_size();
        }
        r
    }

    proof fn lemma_count(&self)
        requires
            self.wf(),
        ensures
            0 <= self.size() <= self.limit(),
    {
        match self {
            Children::Node48 { index, slots, count } => {
                lemma_taken_bounds(slots@);
            },
            Children::Node256 { slots, count } => {
                lemma_taken_bounds(slots@);
            },
            _ => {},
        }
    }

    /// Moves the children to the next larger layout. The largest one stays.
    pub fn grow(self) -> (r: Self)
        requires
            self.wf(),
        ensures
            r.wf(),
            r.same(&self),
            r.size() == self.size(),
            r is Node16 <==> self is Node4,
            r is Node48 <==> self is Node16,
            r is Node256 <==> self is Node48 || self is Node256,
    {
        proof {
            self.lemma_count();
        }
        match self {
            Children::Node4 { keys, nodes } => Children::Node16 { keys, nodes },
            Children::Node16 { keys, nodes } => Self::move_all(
                Children::Node16 { keys, nodes },
                Self::new_node48(),
            ),
            Children::Node48 { index, slots, count } => Self::move_all(
                Children::Node48 { index, slots, count },
                Self::new_node256(),
            ),
            Children::Node256 { slots, count } => Children::Node256 { slots, count },
        }
    }

    /// Moves the children to the next smaller layout if they fit there.
    pub fn shrink(self) -> (r: Self)
        requires
            self.wf(),
        ensures
            r.wf(),
            r.same(&self),
            r.size() == self.size(),
            r is Node4 <==> self is Node4 || self is Node16 && self.size() <= NODE4_MAX,
            r is Node16 <==> self is Node16 && self.size() > NODE4_MAX || self is Node48
                && self.size() <= NODE16_MAX,
            r is Node256 <==> self is Node256 && self.size() > NODE48_MAX,
    {
        match self {
            Children::Node4 { keys, nodes } => Children::Node4 { keys, nodes },
            Children::Node16 { keys, nodes } => if nodes.len() <= NODE4_MAX {
                Children::Node4 { keys, nodes }
            } else {
                Children::Node16 { keys, nodes }
            },
            Children::Node48 { index, slots, count } => {
                let same = Children::Node48 { index, slots, count };
                if count <= NODE16_MAX {
                    Self::move_all(
                        same,
                        Children::Node16 { keys: Vec::new(), nodes: Vec::new() },
                    )
                } else {
                    same
                }
            },
            Children::Node256 { slots, count } => {
                let same = Children::Node256 { slots, count };
                if count <= NODE48_MAX {
                    Self::move_all(same, Self::new_node48())
                } else {
                    same
                }
            },
        }
    }

    /// Adds a child for a byte that has none, in a larger layout if this one is full.
    pub fn put(self, b: u8, child: T) -> (r: Self)
        requires
            self.wf(),
            !self.has(b),
        ensures
            r.wf(),
            r.is_with(&self, b, child),
            r.size() == self.size() + 1,
    {
        proof {
            self.lemma_count();
        }
        if self.is_full() {
            let larger = self.grow();
            proof {
                larger.lemma_count();
                assert(larger.has(b) == self.has(b));
            }
            let r = larger.add_child(b, child);
            proof {
                assert forall|c: u8| #[trigger]
                    r.has(c) == (c == b || self.has(c)) && (r.has(c) ==> r.kid(c) == (if c == b {
                        child
                    } else {
                        self.kid(c)
                    })) by {
                    assert(larger.has(c) == self.has(c));
                }
            }
            r
        } else {
            self.add_child(b, child)
        }
    }
}

proof fn lemma_removed(keys: Seq<u8>, b: u8)
    requires
        keys.no_duplicates(),
        position(keys, b) < keys.len(),
    ensures
        keys.remove(position(keys, b)).no_duplicates(),
        forall|c: u8| #[trigger]
            position(keys.remove(position(keys, b)), c) == (if c == b {
                keys.len() - 1
            } else if position(keys, c) >= keys.len() {
                keys.len() - 1
            } else if position(keys, c) < position(keys, b) {
                position(keys, c)
            } else {
                position(keys, c) - 1
            }),
{
    lemma_position(keys, b);
    let i = position(keys, b);
    let k2 = keys.remove(i);
    assert forall|x: int, y: int| 0 <= x < y < k2.len() implies k2[x] != k2[y] by {
        let x0 = if x < i { x } else { x + 1 };
        let y0 = if y < i { y } else { y + 1 };
        assert(keys[x0] != keys[y0]);
    }
    assert forall|c: u8| #[trigger] position(k2, c) == (if c == b {
        keys.len() - 1
    } else if position(keys, c) >= keys.len() {
        keys.len() - 1
    } else if position(keys, c) < position(keys, b) {
        position(keys, c)
    } else {
        position(keys, c) - 1
    }) by {
        lemma_position(keys, c);
        lemma_position(k2, c);
        let q = position(k2, c);
        if c == b || position(keys, c) >= keys.len() {
            if q < k2.len() {
                let q0 = if q < i { q } else { q + 1 };
                assert(keys[q0] == c);
                assert(c == b ==> keys[q0] == keys[i]);
            }
        } else {
            let p = position(keys, c);
            assert(keys[p] == c);
            if p < i {
                assert(k2[p] == c);
                lemma_position_is(k2, c, p);
            } else {
                assert(p != i);
                assert(k2[p - 1] == c);
                lemma_position_is(k2, c, p - 1);
            }
        }
    }
}

proof fn lemma_added(keys: Seq<u8>, b: u8)
    requires
        keys.no_duplicates(),
        position(keys, b) >= keys.len(),
    ensures
        keys.push(b).no_duplicates(),
        forall|c: u8| #[trigger]
            position(keys.push(b), c) == (if c == b {
                keys.len() as int
            } else if position(keys, c) < keys.len() {
                position(keys, c)
            } else {
                keys.len() as int + 1
            }),
{
    let k2 = keys.push(b);
    lemma_position(keys, b);
    assert(k2.no_duplicates());
    assert forall|c: u8| #[trigger] position(k2, c) == (if c == b {
        keys.len() as int
    } else if position(keys, c) < keys.len() {
        position(keys, c)
    } else {
        keys.len() as int + 1
    }) by {
        lemma_position(keys, c);
        lemma_position(k2, c);
        if c == b {
            lemma_position_is(k2, c, keys.len() as int);
        } else if position(keys, c) < keys.len() {
            let i = position(keys, c);
            assert(k2[i] == c);
            lemma_position_is(k2, c, i);
        } else {
            let i = position(k2, c);
            if i < k2.len() {
                assert(k2[i] == c);
                assert(keys[i] == c);
            }
        }
    }
}

} // verus!

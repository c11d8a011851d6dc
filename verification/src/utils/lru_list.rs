//! Entries in the order of their last use: a doubly linked list whose nodes lie in a
//! vector.

use vstd::prelude::*;

use crate::utils::cache_key::CacheKey;

verus! {

/// A node of the list.
struct Node<K, V> {
    key: K,
    value: V,
    charge: usize,
    prev: Option<usize>,
    next: Option<usize>,
}

/// An entry, seen as plain values.
#[verifier::ext_equal]
pub struct LruEntry<KV, V> {
    /// The key.
    pub key: KV,
    /// The value.
    pub value: V,
    /// How much it counts as.
    pub charge: usize,
}

/// Entries in the order of their last use, the latest first.
pub struct LruList<K, V> {
    nodes: Vec<Option<Node<K, V>>>,
    free: Vec<usize>,
    head: Option<usize>,
    tail: Option<usize>,
    len: usize,
    order: Ghost<Seq<usize>>,
}

/// The first entry from `from` on with this key, or the number of entries.
pub open spec fn place_of<KV, V>(entries: Seq<LruEntry<KV, V>>, key: KV, from: nat) -> nat
    decreases entries.len() - from,
{
    if from >= entries.len() || entries[from as int].key == key {
        from
    } else {
        place_of(entries, key, from + 1)
    }
}

/// No key occurs twice.
pub open spec fn keys_differ<KV, V>(entries: Seq<LruEntry<KV, V>>) -> bool {
    forall|i: int, j: int|
        0 <= i < j < entries.len() ==> (#[trigger] entries[i]).key != (#[trigger] entries[j]).key
}

/// The entries with number `i` in front.
pub open spec fn to_front<KV, V>(entries: Seq<LruEntry<KV, V>>, i: int) -> Seq<LruEntry<KV, V>> {
    seq![entries[i]] + entries.remove(i)
}

/// Where a key was found, and nothing before it.
pub(crate) proof fn lemma_place<KV, V>(entries: Seq<LruEntry<KV, V>>, key: KV, from: nat)
    requires
        from <= entries.len(),
    ensures
        from <= place_of(entries, key, from) <= entries.len(),
        place_of(entries, key, from) < entries.len() ==> entries[place_of(
            entries,
            key,
            from,
        ) as int].key == key,
        forall|i: int|
            from <= i < place_of(entries, key, from) ==> (#[trigger] entries[i]).key != key,
    decreases entries.len() - from,
{
    if from < entries.len() && entries[from as int].key != key {
        lemma_place(entries, key, from + 1);
    }
}

/// Where a key stands at `i`, that is its place.
pub(crate) proof fn lemma_place_at<KV, V>(entries: Seq<LruEntry<KV, V>>, key: KV, i: int)
    requires
        keys_differ(entries),
        0 <= i < entries.len(),
        entries[i].key == key,
    ensures
        place_of(entries, key, 0) == i,
{
    lemma_place(entries, key, 0);
    let p = place_of(entries, key, 0) as int;
    if p < i {
        assert(entries[p].key != entries[i].key);
    }
}

/// The node before number `i`.
spec fn before(order: Seq<usize>, i: int) -> Option<usize> {
    if i == 0 {
        None
    } else {
        Some(order[i - 1])
    }
}

/// The node after number `i`.
spec fn after(order: Seq<usize>, i: int) -> Option<usize> {
    if i + 1 >= order.len() {
        None
    } else {
        Some(order[i + 1])
    }
}

/// The nodes are linked in this order.
spec fn linked<K, V>(nodes: Seq<Option<Node<K, V>>>, order: Seq<usize>) -> bool {
    &&& forall|i: int|
        0 <= i < order.len() ==> (#[trigger] order[i]) < nodes.len() && nodes[order[i] as int]
            is Some
    &&& forall|i: int|
        0 <= i < order.len() ==> nodes[(#[trigger] order[i]) as int]->Some_0.prev == before(
            order,
            i,
        ) && nodes[order[i] as int]->Some_0.next == after(order, i)
    &&& order.no_duplicates()
}

/// The first of the order.
spec fn first(order: Seq<usize>) -> Option<usize> {
    if order.len() == 0 {
        None
    } else {
        Some(order[0])
    }
}

/// The last of the order.
spec fn last(order: Seq<usize>) -> Option<usize> {
    if order.len() == 0 {
        None
    } else {
        Some(order.last())
    }
}

/// Nothing but links differs.
spec fn same_content<K, V>(a: Seq<Option<Node<K, V>>>, b: Seq<Option<Node<K, V>>>) -> bool {
    &&& a.len() == b.len()
    &&& forall|i: int|
        0 <= i < a.len() ==> {
            &&& (#[trigger] a[i]) is Some == b[i] is Some
            &&& a[i] is Some ==> a[i]->Some_0.key == b[i]->Some_0.key && a[i]->Some_0.value
                == b[i]->Some_0.value && a[i]->Some_0.charge == b[i]->Some_0.charge
        }
}

impl<K: CacheKey, V> Node<K, V> {
    spec fn entry(self) -> LruEntry<K::V, V> {
        LruEntry { key: self.key@, value: self.value, charge: self.charge }
    }
}

/// The entries of nodes in an order.
spec fn entries_in<K: CacheKey, V>(nodes: Seq<Option<Node<K, V>>>, order: Seq<usize>) -> Seq<
    LruEntry<K::V, V>,
> {
    Seq::new(order.len(), |i: int| nodes[order[i] as int]->Some_0.entry())
}

impl<K: CacheKey, V> View for LruList<K, V> {
    type V = Seq<LruEntry<K::V, V>>;

    closed spec fn view(&self) -> Seq<LruEntry<K::V, V>> {
        entries_in(self.nodes@, self.order@)
    }
}

/// Sets the link to the node after `idx`.
fn set_next<K, V>(nodes: &mut Vec<Option<Node<K, V>>>, idx: usize, next: Option<usize>)
    requires
        idx < old(nodes)@.len(),
        old(nodes)@[idx as int] is Some,
    ensures
        final(nodes)@ == old(nodes)@.update(
            idx as int,
            Some(Node { next, ..old(nodes)@[idx as int]->Some_0 }),
        ),
{
    if let Some(node) = &mut nodes[idx] {
        node.next = next;
    }
}

/// Sets the link to the node before `idx`.
fn set_prev<K, V>(nodes: &mut Vec<Option<Node<K, V>>>, idx: usize, prev: Option<usize>)
    requires
        idx < old(nodes)@.len(),
        old(nodes)@[idx as int] is Some,
    ensures
        final(nodes)@ == old(nodes)@.update(
            idx as int,
            Some(Node { prev, ..old(nodes)@[idx as int]->Some_0 }),
        ),
{
    if let Some(node) = &mut nodes[idx] {
        node.prev = prev;
    }
}

/// A part of an order that leaves one out still has no duplicates.
proof fn lemma_removed(order: Seq<usize>, i: int)
    requires
        order.no_duplicates(),
        0 <= i < order.len(),
    ensures
        order.remove(i).no_duplicates(),
        !order.remove(i).contains(order[i]),
        forall|x: usize|
            x != order[i] ==> (#[trigger] order.remove(i).contains(x) <==> order.contains(x)),
{
    let rest = order.remove(i);
    assert forall|a: int, b: int|
        0 <= a < rest.len() && 0 <= b < rest.len() && a != b implies rest[a] != rest[b] by {
        let a0 = if a < i {
            a
        } else {
            a + 1
        };
        let b0 = if b < i {
            b
        } else {
            b + 1
        };
        assert(order[a0] != order[b0]);
    }
    if rest.contains(order[i]) {
        let a = choose|a: int| 0 <= a < rest.len() && rest[a] == order[i];
        let a0 = if a < i {
            a
        } else {
            a + 1
        };
        assert(order[a0] != order[i]);
    }
    assert forall|x: usize| x != order[i] implies (#[trigger] rest.contains(x)
        <==> order.contains(x)) by {
        if order.contains(x) {
            let a = choose|a: int| 0 <= a < order.len() && order[a] == x;
            let a1 = if a < i {
                a
            } else {
                a - 1
            };
            assert(rest[a1] == x);
        }
        if rest.contains(x) {
            let a = choose|a: int| 0 <= a < rest.len() && rest[a] == x;
            let a0 = if a < i {
                a
            } else {
                a + 1
            };
            assert(order[a0] == x);
        }
    }
}

/// An order with one more in front has no duplicates.
proof fn lemma_added(order: Seq<usize>, idx: usize)
    requires
        order.no_duplicates(),
        !order.contains(idx),
    ensures
        (seq![idx] + order).no_duplicates(),
        forall|x: usize|
            #[trigger] (seq![idx] + order).contains(x) <==> x == idx || order.contains(x),
{
    let more = seq![idx] + order;
    assert forall|a: int, b: int|
        0 <= a < more.len() && 0 <= b < more.len() && a != b implies more[a] != more[b] by {
        if a > 0 && b > 0 {
            assert(order[a - 1] != order[b - 1]);
        } else if a > 0 {
            assert(order.contains(order[a - 1]));
        } else {
            assert(order.contains(order[b - 1]));
        }
    }
    assert forall|x: usize|
        #[trigger] more.contains(x) <==> x == idx || order.contains(x) by {
        if order.contains(x) {
            let a = choose|a: int| 0 <= a < order.len() && order[a] == x;
            assert(more[a + 1] == x);
        }
        if x == idx {
            assert(more[0] == x);
        }
        if more.contains(x) {
            let a = choose|a: int| 0 <= a < more.len() && more[a] == x;
            if a > 0 {
                assert(order[a - 1] == x);
            }
        }
    }
}

/// The nodes once number `i` is out of the chain.
spec fn detached<K, V>(nodes: Seq<Option<Node<K, V>>>, order: Seq<usize>, i: int) -> Seq<
    Option<Node<K, V>>,
> {
    let one = if i > 0 {
        let p = order[i - 1] as int;
        nodes.update(p, Some(Node { next: after(order, i), ..nodes[p]->Some_0 }))
    } else {
        nodes
    };
    if i + 1 < order.len() {
        let n = order[i + 1] as int;
        one.update(n, Some(Node { prev: before(order, i), ..one[n]->Some_0 }))
    } else {
        one
    }
}

/// The others are linked once number `i` is out of the chain.
proof fn lemma_detached<K, V>(nodes: Seq<Option<Node<K, V>>>, order: Seq<usize>, i: int)
    requires
        linked(nodes, order),
        0 <= i < order.len(),
    ensures
        linked(detached(nodes, order, i), order.remove(i)),
        same_content(detached(nodes, order, i), nodes),
{
    let rest = order.remove(i);
    let now = detached(nodes, order, i);
    lemma_removed(order, i);
    if i > 0 {
        assert(order[i - 1] < nodes.len() && nodes[order[i - 1] as int] is Some);
    }
    if i + 1 < order.len() {
        assert(order[i + 1] < nodes.len() && nodes[order[i + 1] as int] is Some);
        if i > 0 {
            assert(order[i - 1] != order[i + 1]);
        }
    }
    assert forall|a: int| 0 <= a < rest.len() implies (#[trigger] rest[a]) < now.len()
        && now[rest[a] as int] is Some && now[rest[a] as int]->Some_0.prev == before(rest, a)
        && now[rest[a] as int]->Some_0.next == after(rest, a) by {
        let a0 = if a < i {
            a
        } else {
            a + 1
        };
        assert(order[a0] == rest[a]);
        assert(nodes[order[a0] as int] is Some);
        assert(nodes[order[a0] as int]->Some_0.prev == before(order, a0));
        assert(nodes[order[a0] as int]->Some_0.next == after(order, a0));
        if i > 0 && a0 != i - 1 {
            assert(order[a0] != order[i - 1]);
        }
        if i + 1 < order.len() && a0 != i + 1 {
            assert(order[a0] != order[i + 1]);
        }
    }
}

impl<K: CacheKey, V> LruList<K, V> {
    /// The links are those of the order.
    spec fn chained(&self) -> bool {
        &&& linked(self.nodes@, self.order@)
        &&& self.head == first(self.order@)
        &&& self.tail == last(self.order@)
    }

    /// The nodes that are not in use can be used.
    spec fn free_fits(&self) -> bool {
        &&& forall|i: int|
            0 <= i < self.free@.len() ==> (#[trigger] self.free@[i]) < self.nodes@.len()
                && self.nodes@[self.free@[i] as int] is None
        &&& self.free@.no_duplicates()
    }

    /// Every node in use is in the list.
    spec fn complete(&self) -> bool {
        forall|x: usize|
            x < self.nodes@.len() && (#[trigger] self.nodes@[x as int]) is Some
                ==> self.order@.contains(x)
    }

    /// The list is well-formed, and no key occurs twice.
    pub closed spec fn wf(&self) -> bool {
        &&& self.chained()
        &&& self.free_fits()
        &&& self.complete()
        &&& self.len == self.order@.len()
        &&& self.order@.len() + self.free@.len() == self.nodes@.len()
        &&& keys_differ(self@)
    }

    /// No key occurs twice.
    pub(crate) proof fn lemma_keys_differ(&self)
        requires
            self.wf(),
        ensures
            keys_differ(self@),
    {
    }

    /// No entries.
    pub fn new() -> (r: Self)
        ensures
            r.wf(),
            r@ == Seq::<LruEntry<K::V, V>>::empty(),
    {
        let r = LruList {
            nodes: Vec::new(),
            free: Vec::new(),
            head: None,
            tail: None,
            len: 0,
            order: Ghost(Seq::empty()),
        };
        assert(r@ =~= Seq::<LruEntry<K::V, V>>::empty());
        r
    }

    /// How many entries there are.
    pub fn len(&self) -> (r: usize)
        requires
            self.wf(),
        ensures
            r == self@.len(),
    {
        self.len
    }

    /// The node of a key.
    fn find(&self, key: &K) -> (r: Option<usize>)
        requires
            self.wf(),
        ensures
            match r {
                Some(idx) => idx < self.nodes@.len() && self.nodes@[idx as int] is Some
                    && self.nodes@[idx as int]->Some_0.key@ == key@ && place_of(self@, key@, 0)
                    < self@.len() && self.order@[place_of(self@, key@, 0) as int] == idx,
                None => place_of(self@, key@, 0) == self@.len(),
            },
    {
        let mut idx: usize = 0;
        while idx < self.nodes.len()
            invariant
                self.wf(),
                idx <= self.nodes@.len(),
                forall|x: int|
                    0 <= x < idx ==> ((#[trigger] self.nodes@[x]) matches Some(node) ==> node.key@
                        != key@),
            decreases self.nodes.len() - idx,
        {
            if let Some(node) = &self.nodes[idx] {
                if node.key.same_key(key) {
                    proof {
                        assert(self.order@.contains(idx));
                        let i = choose|i: int|
                            0 <= i < self.order@.len() && self.order@[i] == idx;
                        assert(self@[i].key == key@);
                        lemma_place_at(self@, key@, i);
                    }
                    return Some(idx);
                }
            }
            idx = idx + 1;
        }
        proof {
            lemma_place(self@, key@, 0);
            let p = place_of(self@, key@, 0) as int;
            if p < self@.len() {
                let x = self.order@[p];
                assert(self.nodes@[x as int] is Some);
                assert(self@[p].key == self.nodes@[x as int]->Some_0.key@);
            }
        }
        None
    }

    /// Whether a key is there.
    pub fn contains(&self, key: &K) -> (r: bool)
        requires
            self.wf(),
        ensures
            r == (place_of(self@, key@, 0) < self@.len()),
    {
        self.find(key).is_some()
    }

    /// The value of a key.
    pub fn peek(&self, key: &K) -> (r: Option<&V>)
        requires
            self.wf(),
        ensures
            ({
                let i = place_of(self@, key@, 0);
                if i < self@.len() {
                    r is Some && *r->Some_0 == self@[i as int].value
                } else {
                    r is None
                }
            }),
    {
        match self.find(key) {
            Some(idx) => match &self.nodes[idx] {
                Some(node) => Some(&node.value),
                None => None,
            },
            None => None,
        }
    }

    /// Takes a node out of the chain; it keeps what it holds.
    fn detach(&mut self, idx: usize)
        requires
            old(self).chained(),
            old(self).order@.contains(idx),
        ensures
            final(self).chained(),
            final(self).order@ == old(self).order@.remove(old(self).order@.index_of(idx)),
            !final(self).order@.contains(idx),
            same_content(final(self).nodes@, old(self).nodes@),
            final(self).free == old(self).free,
            final(self).len == old(self).len,
    {
        let ghost order = self.order@;
        let ghost i = order.index_of(idx);
        let ghost nodes = self.nodes@;
        let ghost rest = order.remove(i);
        proof {
            lemma_removed(order, i);
        }
        let (prev, next): (Option<usize>, Option<usize>) = match &self.nodes[idx] {
            Some(node) => (node.prev, node.next),
            None => (None, None),
        };
        assert(prev == before(order, i) && next == after(order, i));
        match prev {
            Some(prev_idx) => {
                assert(prev_idx == order[i - 1]);
                set_next(&mut self.nodes, prev_idx, next);
            },
            None => {
                self.head = next;
            },
        }
        match next {
            Some(next_idx) => {
                assert(next_idx == order[i + 1]);
                assert(order[i + 1] != order[i]);
                set_prev(&mut self.nodes, next_idx, prev);
            },
            None => {
                self.tail = prev;
            },
        }
        proof {
            self.order = Ghost(rest);
            lemma_detached(nodes, order, i);
            assert(self.nodes@ =~= detached(nodes, order, i));
        }
    }

    /// Puts a node in front of the chain.
    fn attach_front(&mut self, idx: usize)
        requires
            old(self).chained(),
            !old(self).order@.contains(idx),
            idx < old(self).nodes@.len(),
            old(self).nodes@[idx as int] is Some,
        ensures
            final(self).chained(),
            final(self).order@ == seq![idx] + old(self).order@,
            same_content(final(self).nodes@, old(self).nodes@),
            final(self).free == old(self).free,
            final(self).len == old(self).len,
    {
        let ghost order = self.order@;
        let ghost nodes = self.nodes@;
        let ghost more = seq![idx] + order;
        proof {
            lemma_added(order, idx);
        }
        let old_head: Option<usize> = self.head;
        set_prev(&mut self.nodes, idx, None);
        set_next(&mut self.nodes, idx, old_head);
        match old_head {
            Some(old_head_idx) => {
                assert(old_head_idx == order[0]);
                assert(order.contains(order[0]));
                set_prev(&mut self.nodes, old_head_idx, Some(idx));
            },
            None => {
                self.tail = Some(idx);
            },
        }
        self.head = Some(idx);
        proof {
            self.order = Ghost(more);
            assert forall|a: int| 0 <= a < more.len() implies (#[trigger] more[a])
                < self.nodes@.len() && self.nodes@[more[a] as int] is Some by {
                if a > 0 {
                    assert(order[a - 1] == more[a]);
                }
            }
            assert forall|a: int| 0 <= a < more.len() implies self.nodes@[(
            #[trigger] more[a]) as int]->Some_0.prev == before(more, a)
                && self.nodes@[more[a] as int]->Some_0.next == after(more, a) by {
                if a > 0 {
                    assert(order[a - 1] == more[a]);
                    assert(order.contains(order[a - 1]));
                    assert(nodes[order[a - 1] as int]->Some_0.prev == before(order, a - 1));
                    assert(nodes[order[a - 1] as int]->Some_0.next == after(order, a - 1));
                    if a > 1 {
                        assert(order[a - 1] != order[0]);
                    }
                } else {
                    if order.len() > 0 {
                        assert(order.contains(order[0]));
                        assert(more[1] == order[0]);
                    }
                }
            }
        }
    }

    /// Puts a node in front.
    fn touch(&mut self, idx: usize)
        requires
            old(self).wf(),
            old(self).order@.contains(idx),
        ensures
            final(self).wf(),
            final(self)@ == to_front(old(self)@, old(self).order@.index_of(idx)),
            final(self).order@.contains(idx),
            final(self).order@[0] == idx,
    {
        let ghost order = self.order@;
        let ghost i = order.index_of(idx);
        let is_head = match self.head {
            Some(head) => head == idx,
            None => false,
        };
        if is_head {
            proof {
                assert(order[0] == idx);
                if i != 0 {
                    assert(order[0] != order[i]);
                }
                assert(to_front(self@, 0) =~= self@);
            }
            return;
        }
        proof {
            lemma_removed(order, i);
            lemma_added(order.remove(i), idx);
        }
        self.detach(idx);
        self.attach_front(idx);
        proof {
            lemma_front_content(*old(self), *self, i, idx);
        }
    }

    /// Puts the entry of a key in front.
    pub fn promote(&mut self, key: &K)
        requires
            old(self).wf(),
        ensures
            final(self).wf(),
            ({
                let i = place_of(old(self)@, key@, 0);
                final(self)@ == if i < old(self)@.len() {
                    to_front(old(self)@, i as int)
                } else {
                    old(self)@
                }
            }),
    {
        if let Some(idx) = self.find(key) {
            proof {
                let i = place_of(self@, key@, 0) as int;
                assert(self.order@.contains(idx));
                assert(self.order@[self.order@.index_of(idx)] == idx);
                assert(self.order@.index_of(idx) == i);
            }
            self.touch(idx);
        }
    }

    /// Gives a key that is there another value, and puts it in front: the value and charge
    /// that it had.
    pub fn replace(&mut self, key: &K, value: V, charge: usize) -> (r: Option<(V, usize)>)
        requires
            old(self).wf(),
        ensures
            final(self).wf(),
            ({
                let i = place_of(old(self)@, key@, 0) as int;
                if i < old(self)@.len() {
                    let had = old(self)@[i];
                    &&& r == Some((had.value, had.charge))
                    &&& final(self)@ == seq![LruEntry { key: key@, value, charge }]
                        + old(self)@.remove(i)
                } else {
                    r is None && final(self)@ == old(self)@
                }
            }),
    {
        match self.find(key) {
            None => None,
            Some(idx) => {
                let ghost i = place_of(self@, key@, 0) as int;
                let ghost order = self.order@;
                let ghost was = self@;
                let mut held: V = value;
                let mut weight: usize = charge;
                let ghost prior = self.nodes@[idx as int]->Some_0;
                proof {
                    assert(order.contains(idx));
                    assert(order[order.index_of(idx)] == idx);
                    assert(order.index_of(idx) == i);
                }
                if let Some(node) = &mut self.nodes[idx] {
                    std::mem::swap(&mut held, &mut node.value);
                    std::mem::swap(&mut weight, &mut node.charge);
                }
                proof {
                    let changed = was.update(i, LruEntry { key: key@, value, charge });
                    assert forall|a: int| 0 <= a < order.len() implies #[trigger] self@[a]
                        == changed[a] by {
                        if a != i {
                            assert(order[a] != order[i]);
                        }
                        assert(old(self)@[a]
                            == old(self).nodes@[order[a] as int]->Some_0.entry());
                    }
                    assert(self@ =~= changed);
                    assert forall|a: int, b: int| 0 <= a < b < self@.len() implies (
                    #[trigger] self@[a]).key != (#[trigger] self@[b]).key by {
                        assert(was[a].key != was[b].key);
                    }
                    assert(linked(self.nodes@, order)) by {
                        assert forall|a: int| 0 <= a < order.len() implies self.nodes@[(
                        #[trigger] order[a]) as int]->Some_0.prev == before(order, a)
                            && self.nodes@[order[a] as int]->Some_0.next == after(order, a) by {
                            assert(old(self).nodes@[order[a] as int]->Some_0.prev == before(
                                order,
                                a,
                            ));
                        }
                    }
                    assert(to_front(changed, i) =~= seq![LruEntry { key: key@, value, charge }]
                        + was.remove(i));
                }
                self.touch(idx);
                Some((held, weight))
            },
        }
    }

    /// Puts a new entry in front. Its key must not be there.
    pub fn push_front(&mut self, key: K, value: V, charge: usize)
        requires
            old(self).wf(),
            place_of(old(self)@, key@, 0) == old(self)@.len(),
        ensures
            final(self).wf(),
            final(self)@ == seq![LruEntry { key: key@, value, charge }] + old(self)@,
    {
        let ghost order = self.order@;
        let ghost nodes = self.nodes@;
        let ghost new_entry = LruEntry { key: key@, value, charge };
        let node = Node { key, value, charge, prev: None, next: None };
        let idx = self.alloc_node(node);
        proof {
            lemma_added(order, idx);
            assert forall|a: int| 0 <= a < order.len() implies self.nodes@[(
            #[trigger] order[a]) as int] == nodes[order[a] as int] by {
                assert(order.contains(order[a]));
            }
        }
        let ghost mid = self.nodes@;
        self.attach_front(idx);
        self.len = self.nodes.len() - self.free.len();
        proof {
            let more = seq![idx] + order;
            let wanted = seq![new_entry] + old(self)@;
            assert forall|a: int| 0 <= a < more.len() implies #[trigger] self@[a] == wanted[a] by {
                assert(mid[more[a] as int] is Some == self.nodes@[more[a] as int] is Some);
                if a > 0 {
                    assert(more[a] == order[a - 1]);
                    assert(old(self)@[a - 1] == nodes[order[a - 1] as int]->Some_0.entry());
                }
            }
            assert(self@ =~= wanted);
            lemma_place(old(self)@, new_entry.key, 0);
            assert forall|a: int, b: int| 0 <= a < b < self@.len() implies (
            #[trigger] self@[a]).key != (#[trigger] self@[b]).key by {
                if a > 0 {
                    assert(old(self)@[a - 1].key != old(self)@[b - 1].key);
                } else {
                    assert(old(self)@[b - 1].key != new_entry.key);
                }
            }
            assert forall|x: usize|
                x < self.nodes@.len() && (#[trigger] self.nodes@[x as int]) is Some implies
                self.order@.contains(x) by {
                assert(mid[x as int] is Some);
                if x != idx {
                    assert(order.contains(x));
                }
            }
            assert forall|a: int| 0 <= a < self.free@.len() implies (#[trigger] self.free@[a])
                < self.nodes@.len() && self.nodes@[self.free@[a] as int] is None by {
                assert(mid[self.free@[a] as int] is None);
            }
        }
    }

    /// A node for these contents, one that is not in use where there is one.
    fn alloc_node(&mut self, node: Node<K, V>) -> (idx: usize)
        requires
            old(self).wf(),
        ensures
            final(self).chained(),
            final(self).order == old(self).order,
            final(self).len == old(self).len,
            !old(self).order@.contains(idx),
            idx < final(self).nodes@.len(),
            final(self).nodes@.len() - final(self).free@.len() == old(self).nodes@.len() - old(
                self,
            ).free@.len() + 1,
            final(self).nodes@.len() >= old(self).nodes@.len(),
            final(self).nodes@[idx as int] == Some(node),
            forall|x: int|
                0 <= x < final(self).nodes@.len() && x != idx ==> x < old(self).nodes@.len()
                    && #[trigger] final(self).nodes@[x] == old(self).nodes@[x],
            final(self).free_fits(),
    {
        if let Some(idx) = self.free.pop() {
            let ghost nodes = self.nodes@;
            proof {
                assert(old(self).free@.last() == idx);
                assert(old(self).free@[old(self).free@.len() - 1] == idx);
                if self.order@.contains(idx) {
                    let i = choose|i: int| 0 <= i < self.order@.len() && self.order@[i] == idx;
                    assert(nodes[self.order@[i] as int] is Some);
                }
            }
            self.nodes[idx] = Some(node);
            proof {
                assert forall|a: int| 0 <= a < self.order@.len() implies (
                #[trigger] self.order@[a]) != idx by {
                    assert(self.order@.contains(self.order@[a]));
                }
                assert forall|a: int| 0 <= a < self.free@.len() implies (#[trigger] self.free@[a])
                    < self.nodes@.len() && self.nodes@[self.free@[a] as int] is None by {
                    assert(old(self).free@[a] != old(self).free@[old(self).free@.len() - 1]);
                    assert(old(self).free@[a] == self.free@[a]);
                }
                assert forall|a: int, b: int|
                    0 <= a < self.free@.len() && 0 <= b < self.free@.len() && a
                        != b implies self.free@[a] != self.free@[b] by {
                    assert(old(self).free@[a] != old(self).free@[b]);
                }
            }
            idx
        } else {
            let idx: usize = self.nodes.len();
            proof {
                if self.order@.contains(idx) {
                    let i = choose|i: int| 0 <= i < self.order@.len() && self.order@[i] == idx;
                    assert(self.order@[i] < self.nodes@.len());
                }
            }
            self.nodes.push(Some(node));
            idx
        }
    }

    /// Takes a node out: what it held.
    #[verifier::rlimit(40)]
    #[verifier::spinoff_prover]
    fn remove_idx(&mut self, idx: usize) -> (r: (K, V, usize))
        requires
            old(self).wf(),
            old(self).order@.contains(idx),
        ensures
            final(self).wf(),
            ({
                let i = old(self).order@.index_of(idx);
                let had = old(self)@[i];
                &&& r.0@ == had.key
                &&& r.1 == had.value
                &&& r.2 == had.charge
                &&& final(self)@ == old(self)@.remove(i)
            }),
    {
        let ghost order = self.order@;
        let ghost i = order.index_of(idx);
        let ghost nodes = self.nodes@;
        proof {
            lemma_removed(order, i);
            assert(order.len() > 0);
            assert(self.nodes@[order[i] as int] is Some);
        }
        self.detach(idx);
        let ghost mid = self.nodes@;
        let mut taken: Option<Node<K, V>> = None;
        std::mem::swap(&mut taken, &mut self.nodes[idx]);
        assert(mid[idx as int] is Some == nodes[idx as int] is Some);
        assert(taken is Some);
        let node = taken.unwrap();
        self.free.push(idx);
        self.len = self.len - 1;
        proof {
            let rest = order.remove(i);
            assert(self.order@ == rest);
            assert forall|a: int| 0 <= a < rest.len() implies (#[trigger] rest[a]) != idx by {
                assert(rest.contains(rest[a]));
            }
            assert(linked(self.nodes@, rest)) by {
                assert forall|a: int| 0 <= a < rest.len() implies self.nodes@[(
                #[trigger] rest[a]) as int] == mid[rest[a] as int] by {}
            }
            let wanted = old(self)@.remove(i);
            assert forall|a: int| 0 <= a < rest.len() implies #[trigger] self@[a] == wanted[a] by {
                let a0 = if a < i {
                    a
                } else {
                    a + 1
                };
                assert(order[a0] == rest[a]);
                assert(mid[rest[a] as int] is Some == nodes[rest[a] as int] is Some);
                assert(old(self)@[a0] == nodes[order[a0] as int]->Some_0.entry());
            }
            assert(self@ =~= wanted);
            assert forall|a: int, b: int| 0 <= a < b < self@.len() implies (
            #[trigger] self@[a]).key != (#[trigger] self@[b]).key by {
                let a0 = if a < i {
                    a
                } else {
                    a + 1
                };
                let b0 = if b < i {
                    b
                } else {
                    b + 1
                };
                assert(old(self)@[a0].key != old(self)@[b0].key);
            }
            assert forall|x: usize|
                x < self.nodes@.len() && (#[trigger] self.nodes@[x as int]) is Some implies
                self.order@.contains(x) by {
                assert(mid[x as int] is Some == nodes[x as int] is Some);
                assert(order.contains(x));
            }
            assert forall|a: int| 0 <= a < self.free@.len() implies (#[trigger] self.free@[a])
                < self.nodes@.len() && self.nodes@[self.free@[a] as int] is None by {
                if a < old(self).free@.len() {
                    assert(nodes[old(self).free@[a] as int] is None);
                    assert(mid[self.free@[a] as int] is Some == nodes[self.free@[a] as int] is Some);
                }
            }
            assert forall|a: int, b: int|
                0 <= a < self.free@.len() && 0 <= b < self.free@.len() && a != b implies self.free@[a]
                != self.free@[b] by {
                let n = old(self).free@.len() as int;
                if a < n && b < n {
                    assert(old(self).free@[a] != old(self).free@[b]);
                } else if a < n {
                    assert(nodes[old(self).free@[a] as int] is None);
                } else {
                    assert(nodes[old(self).free@[b] as int] is None);
                }
            }
        }
        (node.key, node.value, node.charge)
    }

    /// Takes the entry of a key out: its value and charge.
    pub fn remove(&mut self, key: &K) -> (r: Option<(V, usize)>)
        requires
            old(self).wf(),
        ensures
            final(self).wf(),
            ({
                let i = place_of(old(self)@, key@, 0) as int;
                if i < old(self)@.len() {
                    let had = old(self)@[i];
                    r == Some((had.value, had.charge)) && final(self)@ == old(self)@.remove(i)
                } else {
                    r is None && final(self)@ == old(self)@
                }
            }),
    {
        match self.find(key) {
            None => None,
            Some(idx) => {
                proof {
                    let i = place_of(self@, key@, 0) as int;
                    assert(self.order@.contains(idx));
                    assert(self.order@[self.order@.index_of(idx)] == idx);
                    assert(self.order@.index_of(idx) == i);
                }
                let (_, value, charge) = self.remove_idx(idx);
                Some((value, charge))
            },
        }
    }

    /// Takes the entry that was not used for longest out: its key, value and charge.
    pub fn pop_back(&mut self) -> (r: Option<(K, V, usize)>)
        requires
            old(self).wf(),
        ensures
            final(self).wf(),
            if old(self)@.len() == 0 {
                r is None && final(self)@ == old(self)@
            } else {
                let had = old(self)@.last();
                &&& r is Some
                &&& r->Some_0.0@ == had.key
                &&& r->Some_0.1 == had.value
                &&& r->Some_0.2 == had.charge
                &&& final(self)@ == old(self)@.drop_last()
            },
    {
        match self.tail {
            None => None,
            Some(idx) => {
                proof {
                    let n = self.order@.len() - 1;
                    assert(self.order@[n] == idx);
                    assert(self.order@.contains(idx));
                    assert(self.order@[self.order@.index_of(idx)] == idx);
                    assert(self.order@.index_of(idx) == n);
                    assert(self@.remove(n) =~= self@.drop_last());
                }
                Some(self.remove_idx(idx))
            },
        }
    }

    /// Takes all entries out.
    pub fn clear(&mut self)
        ensures
            final(self).wf(),
            final(self)@ == Seq::<LruEntry<K::V, V>>::empty(),
    {
        *self = LruList::new();
    }
}

/// What a list holds after a node was put in front.
#[verifier::rlimit(60)]
proof fn lemma_front_content<K: CacheKey, V>(
    was: LruList<K, V>,
    now: LruList<K, V>,
    i: int,
    idx: usize,
)
    requires
        was.wf(),
        now.chained(),
        0 <= i < was.order@.len(),
        was.order@[i] == idx,
        now.order@ == seq![idx] + was.order@.remove(i),
        same_content(now.nodes@, was.nodes@),
        now.free == was.free,
        now.len == was.len,
    ensures
        now.wf(),
        now@ == to_front(was@, i),
        now.order@.contains(idx),
{
    let order = was.order@;
    let rest = order.remove(i);
    let more = now.order@;
    lemma_removed(order, i);
    lemma_added(rest, idx);
    let wanted = to_front(was@, i);
    assert forall|a: int| 0 <= a < more.len() implies #[trigger] now@[a] == wanted[a] by {
        let a0 = if a == 0 {
            i
        } else if a - 1 < i {
            a - 1
        } else {
            a
        };
        assert(more[a] == order[a0]);
        assert(was.nodes@[order[a0] as int] is Some);
        assert(now.nodes@[order[a0] as int] is Some == was.nodes@[order[a0] as int] is Some);
        assert(was@[a0] == was.nodes@[order[a0] as int]->Some_0.entry());
    }
    assert(now@ =~= wanted);
    assert forall|a: int, b: int| 0 <= a < b < now@.len() implies (#[trigger] now@[a]).key != (
    #[trigger] now@[b]).key by {
        let a0 = if a == 0 {
            i
        } else if a - 1 < i {
            a - 1
        } else {
            a
        };
        let b0 = if b - 1 < i {
            b - 1
        } else {
            b
        };
        if a0 < b0 {
            assert(was@[a0].key != was@[b0].key);
        } else {
            assert(was@[b0].key != was@[a0].key);
        }
    }
    assert forall|x: usize| x < now.nodes@.len() && (#[trigger] now.nodes@[x as int]) is Some implies
        now.order@.contains(x) by {
        assert(was.nodes@[x as int] is Some);
        assert(order.contains(x));
    }
    assert forall|a: int| 0 <= a < now.free@.len() implies (#[trigger] now.free@[a])
        < now.nodes@.len() && now.nodes@[now.free@[a] as int] is None by {
        assert(was.nodes@[was.free@[a] as int] is None);
    }
    assert(more[0] == idx);
}

} // verus!

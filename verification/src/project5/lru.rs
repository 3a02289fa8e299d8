//! A Least Recently Used (LRU) cache.
//!
//! `LRUCache<K, V, MAX_SIZE>` stores up to `MAX_SIZE` key-value pairs and
//! evicts the least recently used entry when a new key would overflow the
//! capacity. The recency order is kept as a doubly linked list threaded
//! through the nodes of an ordered map: each node records the key of the
//! entry used just before it (`prev`) and just after it (`next`).
use std::collections::BTreeMap;
use vstd::laws_cmp::obeys_cmp;
use vstd::prelude::*;

verus! {

broadcast use vstd::std_specs::btree::group_btree_axioms;

/// A node of the recency list: the value and its neighbours' keys.
pub struct Node<K, V> {
    pub v: V,
    pub prev: Option<K>,
    pub next: Option<K>,
}

/// A Least Recently Used cache with capacity `MAX_SIZE`.
pub struct LRUCache<K, V, const MAX_SIZE: usize> {
    inner: BTreeMap<K, Node<K, V>>,
    head: Option<K>,
    tail: Option<K>,
    order: Ghost<Seq<K>>,
}

/// The key before position `i` of a recency sequence, if any.
pub open spec fn prev_of<K>(order: Seq<K>, i: int) -> Option<K> {
    if i == 0 {
        None
    } else {
        Some(order[i - 1])
    }
}

/// The key after position `i` of a recency sequence, if any.
pub open spec fn next_of<K>(order: Seq<K>, i: int) -> Option<K> {
    if i + 1 >= order.len() {
        None
    } else {
        Some(order[i + 1])
    }
}

/// The first key of a sequence, if any.
pub open spec fn first_of<K>(order: Seq<K>) -> Option<K> {
    if order.len() == 0 {
        None
    } else {
        Some(order[0])
    }
}

/// The last key of a sequence, if any.
pub open spec fn last_of<K>(order: Seq<K>) -> Option<K> {
    if order.len() == 0 {
        None
    } else {
        Some(order.last())
    }
}

/// Every key of `order` has a node whose links name its neighbours in `order`.
pub open spec fn links_ok<K, V>(inner: Map<K, Node<K, V>>, order: Seq<K>) -> bool {
    forall|i: int|
        0 <= i < order.len() ==> {
            &&& #[trigger] inner.contains_key(order[i])
            &&& inner[order[i]].prev == prev_of(order, i)
            &&& inner[order[i]].next == next_of(order, i)
        }
}

/// Every key of `order` except the one at position `x` has a node whose links
/// name its neighbours in `order`.
pub open spec fn links_ok_except<K, V>(inner: Map<K, Node<K, V>>, order: Seq<K>, x: int) -> bool {
    forall|i: int|
        0 <= i < order.len() && i != x ==> {
            &&& #[trigger] inner.contains_key(order[i])
            &&& inner[order[i]].prev == prev_of(order, i)
            &&& inner[order[i]].next == next_of(order, i)
        }
}

/// Removing position `i` from a sequence without duplicates leaves exactly the
/// other elements, still without duplicates.
pub proof fn lemma_remove_index<K>(s: Seq<K>, i: int)
    requires
        s.no_duplicates(),
        0 <= i < s.len(),
    ensures
        s.remove(i).no_duplicates(),
        forall|x: K| #[trigger] s.remove(i).contains(x) <==> (s.contains(x) && x != s[i]),
{
    let r = s.remove(i);
    assert forall|a: int, b: int| 0 <= a < r.len() && 0 <= b < r.len() && a != b implies r[a]
        != r[b] by {
        let ia = if a < i { a } else { a + 1 };
        let ib = if b < i { b } else { b + 1 };
        assert(r[a] == s[ia]);
        assert(r[b] == s[ib]);
    }
    assert forall|x: K| #[trigger] r.contains(x) <==> (s.contains(x) && x != s[i]) by {
        if r.contains(x) {
            let a = choose|a: int| 0 <= a < r.len() && r[a] == x;
            let ia = if a < i { a } else { a + 1 };
            assert(s[ia] == x);
        }
        if s.contains(x) && x != s[i] {
            let a = choose|a: int| 0 <= a < s.len() && s[a] == x;
            if a < i {
                assert(r[a] == x);
            } else {
                assert(r[a - 1] == x);
            }
        }
    }
}

/// Appending a fresh element to a sequence without duplicates keeps it free
/// of duplicates.
pub proof fn lemma_push_fresh<K>(s: Seq<K>, k: K)
    requires
        s.no_duplicates(),
        !s.contains(k),
    ensures
        s.push(k).no_duplicates(),
        forall|x: K| #[trigger] s.push(k).contains(x) <==> (s.contains(x) || x == k),
{
    let r = s.push(k);
    assert forall|a: int, b: int| 0 <= a < r.len() && 0 <= b < r.len() && a != b implies r[a]
        != r[b] by {
        if a < s.len() && b < s.len() {
            assert(r[a] == s[a]);
            assert(r[b] == s[b]);
        } else if a < s.len() {
            assert(r[a] == s[a]);
        } else if b < s.len() {
            assert(r[b] == s[b]);
        }
    }
    assert forall|x: K| #[trigger] r.contains(x) <==> (s.contains(x) || x == k) by {
        if r.contains(x) {
            let a = choose|a: int| 0 <= a < r.len() && r[a] == x;
            if a < s.len() {
                assert(s[a] == x);
            }
        }
        if s.contains(x) {
            let a = choose|a: int| 0 <= a < s.len() && s[a] == x;
            assert(r[a] == x);
        }
        if x == k {
            assert(r[s.len() as int] == x);
        }
    }
}

/// The recency list after `k` has been used: `k` moves to the most recently
/// used end.
pub open spec fn touch_recency<K>(order: Seq<K>, k: K) -> Seq<K> {
    order.remove(order.index_of(k)).push(k)
}

/// Whether putting a new key evicts the least recently used entry.
pub open spec fn put_evicts<K>(order: Seq<K>, max_size: usize, k: K) -> bool {
    !order.contains(k) && max_size <= order.len()
}

/// The contents after putting `k -> v` into a cache holding `m` whose keys are
/// used in the order `order`.
pub open spec fn put_view<K, V>(m: Map<K, V>, order: Seq<K>, max_size: usize, k: K, v: V) -> Map<
    K,
    V,
> {
    if put_evicts(order, max_size, k) {
        m.remove(order[0]).insert(k, v)
    } else {
        m.insert(k, v)
    }
}

/// The recency list after putting `k`.
pub open spec fn put_recency<K>(order: Seq<K>, max_size: usize, k: K) -> Seq<K> {
    if order.contains(k) {
        touch_recency(order, k)
    } else if max_size <= order.len() {
        order.remove(0).push(k)
    } else {
        order.push(k)
    }
}

/// The values stored in the nodes, by key.
pub open spec fn values_of<K, V>(inner: Map<K, Node<K, V>>) -> Map<K, V> {
    Map::new(|k: K| inner.contains_key(k), |k: K| inner[k].v)
}

/// The shape of a well-formed recency list of at most `max_size` keys.
pub open spec fn list_inv<K, V>(
    inner: Map<K, Node<K, V>>,
    head: Option<K>,
    tail: Option<K>,
    order: Seq<K>,
    max_size: usize,
) -> bool {
    &&& order.no_duplicates()
    &&& order.len() <= max_size
    &&& forall|k: K| #[trigger] inner.contains_key(k) <==> order.contains(k)
    &&& links_ok(inner, order)
    &&& head == first_of(order)
    &&& tail == last_of(order)
}

/// The node under `k` with its value replaced by `nv`.
pub open spec fn with_value<K, V>(inner: Map<K, Node<K, V>>, k: K, nv: V) -> Map<K, Node<K, V>> {
    inner.insert(k, Node { v: nv, prev: inner[k].prev, next: inner[k].next })
}

/// Replacing the value of a present node keeps the list well formed and
/// changes the contents only at that key.
pub proof fn lemma_value_update<K, V>(
    inner: Map<K, Node<K, V>>,
    head: Option<K>,
    tail: Option<K>,
    order: Seq<K>,
    max_size: usize,
    k: K,
    nv: V,
)
    requires
        list_inv(inner, head, tail, order, max_size),
        inner.contains_key(k),
    ensures
        list_inv(with_value(inner, k, nv), head, tail, order, max_size),
        values_of(with_value(inner, k, nv)) == values_of(inner).insert(k, nv),
{
    let m = with_value(inner, k, nv);
    assert forall|x: K| #[trigger] m.contains_key(x) <==> order.contains(x) by {
        assert(inner.contains_key(x) <==> order.contains(x));
    }
    assert forall|i: int| 0 <= i < order.len() implies {
        &&& #[trigger] m.contains_key(order[i])
        &&& m[order[i]].prev == prev_of(order, i)
        &&& m[order[i]].next == next_of(order, i)
    } by {
        assert(inner.contains_key(order[i]));
    }
    assert(values_of(m) =~= values_of(inner).insert(k, nv));
}

/// An element of `s.push(k)` is `k` or an element of `s`.
pub proof fn lemma_push_contains<K>(s: Seq<K>, k: K, x: K)
    ensures
        s.push(k).contains(x) <==> (s.contains(x) || x == k),
{
    if s.push(k).contains(x) {
        let a = choose|a: int| 0 <= a < s.push(k).len() && s.push(k)[a] == x;
        if a < s.len() {
            assert(s[a] == x);
        }
    }
    if s.contains(x) {
        let a = choose|a: int| 0 <= a < s.len() && s[a] == x;
        assert(s.push(k)[a] == x);
    }
    if x == k {
        assert(s.push(k)[s.len() as int] == x);
    }
}

/// `BTreeMap::get_mut`: a mutable reference to the value stored under `k`.
#[verifier::external_body]
fn map_get_mut<'a, K: Ord, V>(m: &'a mut BTreeMap<K, V>, k: &K) -> (r: Option<&'a mut V>)
    ensures
        obeys_cmp::<K>() ==> match r {
            Some(v) => {
                &&& old(m)@.contains_key(*k)
                &&& *v == old(m)@[*k]
                &&& final(m)@ == old(m)@.insert(*k, *final(v))
            },
            None => {
                &&& !old(m)@.contains_key(*k)
                &&& final(m)@ == old(m)@
            },
        },
{
    m.get_mut(k)
}

impl<K: Ord + Copy, V, const MAX_SIZE: usize> LRUCache<K, V, MAX_SIZE> {
    /// The contents of the cache, by key.
    pub closed spec fn view(&self) -> Map<K, V> {
        values_of(self.inner@)
    }

    /// The keys of the cache from the least to the most recently used.
    pub closed spec fn recency(&self) -> Seq<K> {
        self.order@
    }

    /// The cache's internal invariant.
    pub closed spec fn wf(&self) -> bool {
        &&& obeys_cmp::<K>()
        &&& list_inv(self.inner@, self.head, self.tail, self.order@, MAX_SIZE)
    }

    /// Makes a new, empty `LRUCache`.
    pub fn new() -> (r: Self)
        requires
            obeys_cmp::<K>(),
        ensures
            r.wf(),
            r@ == Map::<K, V>::empty(),
            r.recency() == Seq::<K>::empty(),
    {
        let r = LRUCache { inner: BTreeMap::new(), head: None, tail: None, order: Ghost(Seq::empty()) };
        assert(r@ =~= Map::<K, V>::empty());
        r
    }

    /// Rewrites the `prev` link of the node stored under `k`.
    fn set_prev(&mut self, k: K, p: Option<K>)
        requires
            obeys_cmp::<K>(),
            old(self).inner@.contains_key(k),
        ensures
            final(self).inner@ == old(self).inner@.insert(
                k,
                Node { v: old(self).inner@[k].v, prev: p, next: old(self).inner@[k].next },
            ),
            final(self).head == old(self).head,
            final(self).tail == old(self).tail,
            final(self).order == old(self).order,
    {
        let mut n = self.inner.remove(&k).unwrap();
        n.prev = p;
        self.inner.insert(k, n);
    }

    /// Rewrites the `next` link of the node stored under `k`.
    fn set_next(&mut self, k: K, q: Option<K>)
        requires
            obeys_cmp::<K>(),
            old(self).inner@.contains_key(k),
        ensures
            final(self).inner@ == old(self).inner@.insert(
                k,
                Node { v: old(self).inner@[k].v, prev: old(self).inner@[k].prev, next: q },
            ),
            final(self).head == old(self).head,
            final(self).tail == old(self).tail,
            final(self).order == old(self).order,
    {
        let mut n = self.inner.remove(&k).unwrap();
        n.next = q;
        self.inner.insert(k, n);
    }

    /// Unlinks the key at position `i` of the recency list, whose node has
    /// already been taken out of the map, by joining its neighbours.
    fn detach(&mut self, prev: Option<K>, next: Option<K>, Ghost(i): Ghost<int>)
        requires
            obeys_cmp::<K>(),
            0 <= i < old(self).order@.len(),
            old(self).order@.no_duplicates(),
            !old(self).inner@.contains_key(old(self).order@[i]),
            links_ok_except(old(self).inner@, old(self).order@, i),
            prev == prev_of(old(self).order@, i),
            next == next_of(old(self).order@, i),
            old(self).head == first_of(old(self).order@),
            old(self).tail == last_of(old(self).order@),
        ensures
            final(self).order@ == old(self).order@.remove(i),
            links_ok(final(self).inner@, final(self).order@),
            final(self).head == first_of(final(self).order@),
            final(self).tail == last_of(final(self).order@),
            final(self).inner@.dom() == old(self).inner@.dom(),
            forall|k: K| #[trigger]
                old(self).inner@.contains_key(k) ==> final(self).inner@[k].v == old(self).inner@[k].v,
    {
        let ghost order = self.order@;
        let ghost inner0 = self.inner@;
        match next {
            Some(n) => {
                assert(order[i + 1] == n);
                assert(inner0.contains_key(order[i + 1]));
                self.set_prev(n, prev);
            },
            None => {
                self.tail = prev;
            },
        }
        match prev {
            Some(p) => {
                assert(order[i - 1] == p);
                assert(inner0.contains_key(order[i - 1]));
                self.set_next(p, next);
            },
            None => {
                self.head = next;
            },
        }
        self.order = Ghost(order.remove(i));
        let ghost new_order = order.remove(i);
        assert forall|j: int| 0 <= j < new_order.len() implies {
            &&& #[trigger] self.inner@.contains_key(new_order[j])
            &&& self.inner@[new_order[j]].prev == prev_of(new_order, j)
            &&& self.inner@[new_order[j]].next == next_of(new_order, j)
        } by {
            if j < i {
                assert(new_order[j] == order[j]);
                assert(inner0.contains_key(order[j]));
                if j > 0 {
                    assert(new_order[j - 1] == order[j - 1]);
                }
                if j + 1 < i {
                    assert(new_order[j + 1] == order[j + 1]);
                }
                if j == i - 1 && i + 1 < order.len() {
                    assert(new_order[j + 1] == order[i + 1]);
                }
            } else {
                assert(new_order[j] == order[j + 1]);
                assert(inner0.contains_key(order[j + 1]));
                if j > i {
                    assert(new_order[j - 1] == order[j]);
                }
                if j == i && i > 0 {
                    assert(new_order[j - 1] == order[i - 1]);
                }
                if j + 1 < new_order.len() {
                    assert(new_order[j + 1] == order[j + 2]);
                }
            }
        }
        assert(self.inner@.dom() =~= inner0.dom());
    }

    /// Links a new node holding `v` under `k` at the most recently used end.
    fn attach(&mut self, k: K, v: V)
        requires
            obeys_cmp::<K>(),
            !old(self).inner@.contains_key(k),
            !old(self).order@.contains(k),
            old(self).order@.no_duplicates(),
            links_ok(old(self).inner@, old(self).order@),
            old(self).head == first_of(old(self).order@),
            old(self).tail == last_of(old(self).order@),
        ensures
            final(self).order@ == old(self).order@.push(k),
            links_ok(final(self).inner@, final(self).order@),
            final(self).head == first_of(final(self).order@),
            final(self).tail == last_of(final(self).order@),
            final(self).inner@.dom() == old(self).inner@.dom().insert(k),
            final(self).inner@[k].v == v,
            forall|x: K| #[trigger]
                old(self).inner@.contains_key(x) ==> final(self).inner@[x].v == old(self).inner@[x].v,
    {
        let ghost order = self.order@;
        let ghost inner0 = self.inner@;
        match self.tail {
            Some(t) => {
                assert(order[order.len() - 1] == t);
                assert(inner0.contains_key(order[order.len() - 1]));
                self.set_next(t, Some(k));
            },
            None => {
                self.head = Some(k);
            },
        }
        let ptail = self.tail;
        self.tail = Some(k);
        self.inner.insert(k, Node { v, prev: ptail, next: None });
        self.order = Ghost(order.push(k));
        let ghost new_order = order.push(k);
        assert forall|j: int| 0 <= j < new_order.len() implies {
            &&& #[trigger] self.inner@.contains_key(new_order[j])
            &&& self.inner@[new_order[j]].prev == prev_of(new_order, j)
            &&& self.inner@[new_order[j]].next == next_of(new_order, j)
        } by {
            if j < order.len() {
                assert(new_order[j] == order[j]);
                assert(inner0.contains_key(order[j]));
                assert(order[j] != k);
                if j > 0 {
                    assert(new_order[j - 1] == order[j - 1]);
                }
                if j + 1 < order.len() {
                    assert(new_order[j + 1] == order[j + 1]);
                }
            } else {
                assert(new_order[j] == k);
                if j > 0 {
                    assert(new_order[j - 1] == order[j - 1]);
                }
            }
        }
        assert(self.inner@.dom() =~= inner0.dom().insert(k));
    }

    /// Removes a key from the LRUCache, returning the stored value if the
    /// key was previously in the LRUCache.
    pub fn remove(&mut self, k: &K) -> (r: Option<V>)
        requires
            old(self).wf(),
        ensures
            final(self).wf(),
            match r {
                Some(v) => {
                    &&& old(self)@.contains_key(*k)
                    &&& v == old(self)@[*k]
                    &&& final(self)@ == old(self)@.remove(*k)
                    &&& final(self).recency() == old(self).recency().remove(
                        old(self).recency().index_of(*k),
                    )
                },
                None => {
                    &&& !old(self)@.contains_key(*k)
                    &&& final(self)@ == old(self)@
                    &&& final(self).recency() == old(self).recency()
                },
            },
    {
        let ghost order = self.order@;
        let ghost inner0 = self.inner@;
        let ghost old_view = self@;
        let ghost i = order.index_of(*k);
        match self.inner.remove(k) {
            None => {
                assert(self@ =~= old_view);
                None
            },
            Some(node) => {
                assert(order.contains(*k));
                assert(order[i] == *k);
                assert(inner0.contains_key(order[i]));
                let Node { v, prev, next } = node;
                proof {
                    lemma_remove_index(order, i);
                    assert forall|j: int| 0 <= j < order.len() && j != i implies {
                        &&& #[trigger] self.inner@.contains_key(order[j])
                        &&& self.inner@[order[j]].prev == prev_of(order, j)
                        &&& self.inner@[order[j]].next == next_of(order, j)
                    } by {
                        assert(inner0.contains_key(order[j]));
                        assert(order[j] != order[i]);
                    }
                    assert(links_ok_except(self.inner@, order, i));
                }
                self.detach(prev, next, Ghost(i));
                proof {
                    assert forall|x: K| #[trigger]
                        self.inner@.contains_key(x) <==> self.order@.contains(x) by {
                        assert(inner0.contains_key(x) <==> order.contains(x));
                    }
                    assert(self@ =~= old_view.remove(*k));
                }
                Some(v)
            },
        }
    }

    /// The number of entries equals the length of the recency list.
    proof fn lemma_len(&self)
        requires
            self.wf(),
        ensures
            self.inner@.len() == self.order@.len(),
            self@.dom() == self.inner@.dom(),
    {
        self.order@.unique_seq_to_set();
        assert(self.inner@.dom() =~= self.order@.to_set());
        assert(self@.dom() =~= self.inner@.dom());
    }

    /// Inserts or refreshes `k` with value `v`, evicting the least recently
    /// used entry when a new key finds the cache full.
    fn put_entry(&mut self, k: K, v: V)
        requires
            old(self).wf(),
            MAX_SIZE > 0,
        ensures
            final(self).wf(),
            final(self)@ == put_view(old(self)@, old(self).recency(), MAX_SIZE, k, v),
            final(self).recency() == put_recency(old(self).recency(), MAX_SIZE, k),
    {
        let ghost old_view = self@;
        let ghost order = self.order@;
        proof {
            self.lemma_len();
        }
        if self.inner.contains_key(&k) {
            assert(self@.contains_key(k));
            let _ = self.remove(&k);
            proof {
                lemma_remove_index(order, order.index_of(k));
            }
            let ghost mid_inner = self.inner@;
            let ghost mid_view = self@;
            self.attach(k, v);
            proof {
                lemma_push_fresh(order.remove(order.index_of(k)), k);
                assert forall|x: K| #[trigger]
                    self.inner@.contains_key(x) <==> self.order@.contains(x) by {}
                assert forall|x: K| #[trigger] self@.contains_key(x) implies self@[x] == old_view.insert(k, v)[x] by {
                    if x != k {
                        assert(mid_inner.contains_key(x));
                        assert(mid_view[x] == mid_inner[x].v);
                    }
                }
                assert(self@ =~= old_view.insert(k, v));
            }
        } else {
            let ghost mid_view = old_view;
            let ghost mid_order = order;
            if MAX_SIZE <= self.inner.len() {
                let h = self.head.unwrap();
                assert(order[0] == h);
                assert(order.index_of(h) == 0) by {
                    assert(order.no_duplicates());
                }
                let _ = self.remove(&h);
                proof {
                    lemma_remove_index(order, 0);
                    mid_view = old_view.remove(h);
                    mid_order = order.remove(0);
                }
            }
            assert(!self.order@.contains(k));
            assert(self.order@ == mid_order);
            assert(self@ == mid_view);
            self.attach(k, v);
            proof {
                lemma_push_fresh(mid_order, k);
                assert forall|x: K| #[trigger]
                    self.inner@.contains_key(x) <==> self.order@.contains(x) by {}
                assert(self@ =~= mid_view.insert(k, v));
            }
        }
    }

    /// Inserts a key-value pair into the `LRUCache`.
    ///
    /// If the map did have this key present, the value is updated and the key
    /// becomes the most recently used one. If the cache size is overflowed
    /// after insertion, the least recently used entry is evicted.
    pub fn put(&mut self, k: K, v: V)
        requires
            old(self).wf(),
            MAX_SIZE > 0,
        ensures
            final(self).wf(),
            final(self)@ == put_view(old(self)@, old(self).recency(), MAX_SIZE, k, v),
            final(self).recency() == put_recency(old(self).recency(), MAX_SIZE, k),
    {
        self.put_entry(k, v);
    }

    /// Whatever value is later written under the present key `k`, the cache
    /// stays well formed and only that key's value changes.
    proof fn lemma_value_updates(&self, k: K)
        requires
            self.wf(),
            self.inner@.contains_key(k),
        ensures
            forall|nv: V| #[trigger]
                list_inv(with_value(self.inner@, k, nv), self.head, self.tail, self.order@, MAX_SIZE),
            forall|nv: V| #[trigger]
                values_of(with_value(self.inner@, k, nv)) == self@.insert(k, nv),
    {
        assert forall|nv: V| #[trigger]
            list_inv(with_value(self.inner@, k, nv), self.head, self.tail, self.order@, MAX_SIZE) by {
            lemma_value_update(self.inner@, self.head, self.tail, self.order@, MAX_SIZE, k, nv);
        }
        assert forall|nv: V| #[trigger] values_of(with_value(self.inner@, k, nv)) == self@.insert(k, nv) by {
            lemma_value_update(self.inner@, self.head, self.tail, self.order@, MAX_SIZE, k, nv);
        }
    }

    /// Makes the present key `k` the most recently used one.
    fn refresh(&mut self, k: K)
        requires
            old(self).wf(),
            old(self)@.contains_key(k),
        ensures
            final(self).wf(),
            final(self)@ == old(self)@,
            final(self).recency() == touch_recency(old(self).recency(), k),
            final(self).inner@.contains_key(k),
    {
        let ghost old_view = self@;
        let ghost order = self.order@;
        let v = self.remove(&k).unwrap();
        proof {
            lemma_remove_index(order, order.index_of(k));
        }
        let ghost mid_inner = self.inner@;
        let ghost mid_view = self@;
        self.attach(k, v);
        proof {
            lemma_push_fresh(order.remove(order.index_of(k)), k);
            assert forall|x: K| #[trigger]
                self.inner@.contains_key(x) <==> self.order@.contains(x) by {}
            assert forall|x: K| #[trigger] self@.contains_key(x) implies self@[x] == old_view[x] by {
                if x != k {
                    assert(mid_inner.contains_key(x));
                    assert(mid_view[x] == mid_inner[x].v);
                }
            }
            assert(self@ =~= old_view);
        }
    }

    /// Returns a mutable reference to the value corresponding to the key and
    /// makes the key the most recently used one.
    pub fn get(&mut self, k: K) -> (r: Option<&mut V>)
        requires
            old(self).wf(),
        ensures
            final(self).wf(),
            match r {
                Some(v) => {
                    &&& old(self)@.contains_key(k)
                    &&& *v == old(self)@[k]
                    &&& final(self)@ == old(self)@.insert(k, *final(v))
                    &&& final(self).recency() == touch_recency(old(self).recency(), k)
                },
                None => {
                    &&& !old(self)@.contains_key(k)
                    &&& final(self)@ == old(self)@
                    &&& final(self).recency() == old(self).recency()
                },
            },
    {
        if !self.inner.contains_key(&k) {
            return None;
        }
        self.refresh(k);
        proof {
            self.lemma_value_updates(k);
        }
        match map_get_mut(&mut self.inner, &k) {
            Some(node) => Some(&mut node.v),
            None => None,
        }
    }

    /// Returns a reference to the value of `k`, making `k` the most recently
    /// used key; when `k` is absent, the value computed with `f` is inserted
    /// first, unless `f` fails, in which case its error is returned and the
    /// cache is left unchanged.
    pub fn get_or_insert_with<E>(&mut self, k: K, f: impl FnOnce() -> Result<V, E>) -> (r: Result<
        &mut V,
        E,
    >)
        requires
            old(self).wf(),
            MAX_SIZE > 0,
            !old(self)@.contains_key(k) ==> f.requires(()),
        ensures
            final(self).wf(),
            old(self)@.contains_key(k) ==> (r matches Ok(v) && {
                &&& *v == old(self)@[k]
                &&& final(self)@ == old(self)@.insert(k, *final(v))
                &&& final(self).recency() == touch_recency(old(self).recency(), k)
            }),
            !old(self)@.contains_key(k) ==> match r {
                Ok(v) => {
                    &&& f.ensures((), Ok(*v))
                    &&& final(self)@ == put_view(
                        old(self)@,
                        old(self).recency(),
                        MAX_SIZE,
                        k,
                        *v,
                    ).insert(k, *final(v))
                    &&& final(self).recency() == put_recency(old(self).recency(), MAX_SIZE, k)
                },
                Err(e) => {
                    &&& f.ensures((), Err(e))
                    &&& final(self)@ == old(self)@
                    &&& final(self).recency() == old(self).recency()
                },
            },
    {
        if self.inner.contains_key(&k) {
            proof {
                self.lemma_len();
            }
            self.refresh(k);
            proof {
                self.lemma_value_updates(k);
            }
            match map_get_mut(&mut self.inner, &k) {
                Some(node) => Ok(&mut node.v),
                None => vstd::pervasive::unreached(),
            }
        } else {
            proof {
                self.lemma_len();
            }
            let v = match f() {
                Ok(v) => v,
                Err(e) => {
                    return Err(e);
                },
            };
            let ghost pv = put_view(self@, self.recency(), MAX_SIZE, k, v);
            let ghost v0 = v;
            self.put_entry(k, v);
            proof {
                self.lemma_len();
                assert(pv.contains_key(k));
                assert(self.inner@.contains_key(k));
                assert(self@.contains_key(k));
                assert(self@[k] == v0);
                assert(self.inner@[k].v == v0);
                self.lemma_value_updates(k);

            }
            match map_get_mut(&mut self.inner, &k) {
                Some(node) => Ok(&mut node.v),
                None => vstd::pervasive::unreached(),
            }
        }
    }

    /// Calls `f(&k, v)` on every entry, which says whether to keep it and
    /// gives its new value: the entries kept hold their new values, the
    /// others are removed.
    pub fn retain(&mut self, f: impl Fn(&K, V) -> (bool, V))
        requires
            old(self).wf(),
            forall|k: &K, v: V| f.requires((k, v)),
        ensures
            final(self).wf(),
            forall|x: K| #[trigger]
                final(self)@.contains_key(x) ==> {
                    &&& old(self)@.contains_key(x)
                    &&& f.ensures((&x, old(self)@[x]), (true, final(self)@[x]))
                },
            forall|x: K| #[trigger]
                old(self)@.contains_key(x) && !final(self)@.contains_key(x) ==> exists|v: V|
                    f.ensures((&x, old(self)@[x]), (false, v)),
    {
        let ghost old_view = self@;
        let ghost order = self.order@;
        let mut targets: Vec<K> = Vec::new();
        let mut cur = self.head;
        let ghost mut idx: int = 0;
        let ghost mut keep: Seq<bool> = Seq::empty();
        proof {
            self.lemma_len();
        }
        while cur.is_some()
            invariant
                self.wf(),
                self.order@ == order,
                self@.dom() == old_view.dom(),
                0 <= idx <= order.len(),
                keep.len() == idx,
                cur == (if idx < order.len() { Some(order[idx]) } else { None::<K> }),
                forall|k: &K, v: V| f.requires((k, v)),
                forall|j: int|
                    0 <= j < idx ==> f.ensures((&order[j], old_view[order[j]]), (#[trigger] keep[j], self@[order[j]])),
                forall|j: int| idx <= j < order.len() ==> #[trigger] self@[order[j]] == old_view[order[j]],
                forall|j: int| 0 <= j < idx ==> (targets@.contains(order[j]) <==> !#[trigger] keep[j]),
                forall|x: K| #[trigger] targets@.contains(x) ==> exists|j: int| 0 <= j < idx && order[j] == x,
                targets@.no_duplicates(),
            decreases order.len() - idx,
        {
            let k = cur.unwrap();
            proof {
                assert(order[idx] == k);
                assert(self.inner@.contains_key(order[idx]));
                self.lemma_len();
            }
            let ghost before = self@;
            let ghost inner0 = self.inner@;
            proof {
                assert(before[order[idx]] == old_view[order[idx]]);
                assert(before.contains_key(k));
                assert(before[k] == inner0[k].v);
            }
            let Node { v, prev, next } = self.inner.remove(&k).unwrap();
            assert(v == old_view[k]);
            let (b, nv) = f(&k, v);
            self.inner.insert(k, Node { v: nv, prev, next });
            if !b {
                proof {
                    assert(!targets@.contains(k)) by {
                        if targets@.contains(k) {
                            let j = choose|j: int| 0 <= j < idx && order[j] == k;
                            assert(order[j] == order[idx]);
                        }
                    }
                    lemma_push_fresh(targets@, k);
                }
                targets.push(k);
            }
            proof {
                assert(self.inner@ == with_value(inner0, k, nv));
                lemma_value_update(inner0, self.head, self.tail, order, MAX_SIZE, k, nv);
                assert(self@ == before.insert(k, nv));
                assert(inner0[order[idx]].next == next_of(order, idx));
                let ghost old_keep = keep;
                keep = keep.push(b);
                assert forall|j: int| 0 <= j < idx + 1 implies (targets@.contains(order[j]) <==> !#[trigger] keep[j]) by {
                    if j < idx {
                        assert(keep[j] == old_keep[j]);
                        assert(order[j] != k);
                    }
                }
                assert forall|j: int| 0 <= j < idx + 1 implies f.ensures((&order[j], old_view[order[j]]), (#[trigger] keep[j], self@[order[j]])) by {
                    if j < idx {
                        assert(keep[j] == old_keep[j]);
                        assert(order[j] != k);
                    }
                }
                assert forall|j: int| idx + 1 <= j < order.len() implies #[trigger] self@[order[j]] == old_view[order[j]] by {
                    assert(order[j] != k);
                }
                assert forall|x: K| #[trigger] targets@.contains(x) implies exists|j: int| 0 <= j < idx + 1 && order[j] == x by {
                    if x != k {
                        let j = choose|j: int| 0 <= j < idx && order[j] == x;
                        assert(0 <= j < idx + 1 && order[j] == x);
                    } else {
                        assert(order[idx] == x);
                    }
                }
                assert(self@.dom() =~= old_view.dom());
                idx = idx + 1;
            }
            cur = next;
        }
        proof {
            assert(idx == order.len());
        }
        let ghost mid = self@;
        let mut t: usize = 0;
        while t < targets.len()
            invariant
                self.wf(),
                0 <= t <= targets@.len(),
                targets@.no_duplicates(),
                forall|x: K| #[trigger] self@.contains_key(x) ==> mid.contains_key(x) && self@[x] == mid[x],
                forall|x: K| #[trigger] mid.contains_key(x) ==> (self@.contains_key(x) <==> !targets@.take(t as int).contains(x)),
            decreases targets@.len() - t,
        {
            let k = targets[t];
            let ghost before = self@;
            let _ = self.remove(&k);
            proof {
                assert forall|x: K| #[trigger] mid.contains_key(x) implies (self@.contains_key(x) <==> !targets@.take(t + 1).contains(x)) by {
                    let pre = targets@.take(t as int);
                    let post = targets@.take(t + 1);
                    assert(post =~= pre.push(k));
                    lemma_push_contains(pre, k, x);
                }
            }
            t = t + 1;
        }
        proof {
            assert(targets@.take(targets@.len() as int) == targets@);
            assert forall|x: K| #[trigger] self@.contains_key(x) implies old_view.contains_key(x) && f.ensures((&x, old_view[x]), (true, self@[x])) by {
                assert(mid.contains_key(x));
                self.lemma_len();
                assert(order.contains(x)) by {
                    assert(old_view.contains_key(x));
                }
                let j = choose|j: int| 0 <= j < order.len() && order[j] == x;
                if !keep[j] {
                    assert(targets@.contains(order[j]));
                }
                assert(f.ensures((&order[j], old_view[order[j]]), (keep[j], mid[order[j]])));
            }
            assert forall|x: K| #[trigger] old_view.contains_key(x) && !self@.contains_key(x) implies exists|v: V| f.ensures((&x, old_view[x]), (false, v)) by {
                assert(targets@.contains(x));
                let j = choose|j: int| 0 <= j < idx && order[j] == x;
                assert(!keep[j]);
                assert(f.ensures((&order[j], old_view[order[j]]), (keep[j], mid[order[j]])));
            }
        }
    }

    /// Visits every entry, replacing its value with `f(&k, v)`; keys and
    /// recency are unchanged.
    pub fn iter_mut(&mut self, f: impl Fn(&K, V) -> V)
        requires
            old(self).wf(),
            forall|k: &K, v: V| f.requires((k, v)),
        ensures
            final(self).wf(),
            final(self).recency() == old(self).recency(),
            final(self)@.dom() == old(self)@.dom(),
            forall|x: K| #[trigger]
                old(self)@.contains_key(x) ==> f.ensures((&x, old(self)@[x]), final(self)@[x]),
    {
        let ghost old_view = self@;
        let ghost order = self.order@;
        let mut cur = self.head;
        let ghost mut idx: int = 0;
        proof {
            self.lemma_len();
        }
        while cur.is_some()
            invariant
                self.wf(),
                self.order@ == order,
                self@.dom() == old_view.dom(),
                0 <= idx <= order.len(),
                cur == (if idx < order.len() { Some(order[idx]) } else { None::<K> }),
                forall|k: &K, v: V| f.requires((k, v)),
                forall|j: int|
                    0 <= j < idx ==> f.ensures((&order[j], old_view[order[j]]), #[trigger] self@[order[j]]),
                forall|j: int| idx <= j < order.len() ==> #[trigger] self@[order[j]] == old_view[order[j]],
            decreases order.len() - idx,
        {
            let k = cur.unwrap();
            proof {
                assert(order[idx] == k);
                assert(self.inner@.contains_key(order[idx]));
                self.lemma_len();
            }
            let ghost before = self@;
            let ghost inner0 = self.inner@;
            proof {
                assert(before[order[idx]] == old_view[order[idx]]);
                assert(before.contains_key(k));
                assert(before[k] == inner0[k].v);
            }
            let Node { v, prev, next } = self.inner.remove(&k).unwrap();
            assert(v == old_view[k]);
            let nv = f(&k, v);
            self.inner.insert(k, Node { v: nv, prev, next });
            proof {
                assert(self.inner@ == with_value(inner0, k, nv));
                lemma_value_update(inner0, self.head, self.tail, order, MAX_SIZE, k, nv);
                assert(self@ == before.insert(k, nv));
                assert(inner0[order[idx]].next == next_of(order, idx));
                assert forall|j: int| 0 <= j < idx + 1 implies f.ensures((&order[j], old_view[order[j]]), #[trigger] self@[order[j]]) by {
                    if j < idx {
                        assert(order[j] != k);
                    }
                }
                assert forall|j: int| idx + 1 <= j < order.len() implies #[trigger] self@[order[j]] == old_view[order[j]] by {
                    assert(order[j] != k);
                }
                assert(self@.dom() =~= old_view.dom());
                idx = idx + 1;
            }
            cur = next;
        }
        proof {
            assert forall|x: K| #[trigger] old_view.contains_key(x) implies f.ensures((&x, old_view[x]), self@[x]) by {
                self.lemma_len();
                assert(order.contains(x));
                let j = choose|j: int| 0 <= j < order.len() && order[j] == x;
                assert(f.ensures((&order[j], old_view[order[j]]), self@[order[j]]));
            }
        }
    }
}

impl<K: Ord + Copy, V, const MAX_SIZE: usize> LRUCache<K, V, MAX_SIZE> {
    /// The number of entries.
    pub fn len(&self) -> (r: usize)
        requires
            self.wf(),
        ensures
            r == self.recency().len(),
            r == self@.dom().len(),
    {
        proof {
            self.lemma_len();
        }
        self.inner.len()
    }

    /// Whether the cache holds `k`; the recency is left as it is.
    pub fn contains_key(&self, k: &K) -> (r: bool)
        requires
            self.wf(),
        ensures
            r == self@.contains_key(*k),
    {
        proof {
            self.lemma_len();
        }
        self.inner.contains_key(k)
    }

    /// The least recently used key, if any.
    pub fn least_recent(&self) -> (r: Option<K>)
        requires
            self.wf(),
        ensures
            r == first_of(self.recency()),
    {
        self.head
    }

    /// The keys, from the least to the most recently used.
    pub fn keys(&self) -> (r: Vec<K>)
        requires
            self.wf(),
        ensures
            r@ == self.recency(),
    {
        let ghost order = self.order@;
        let mut r: Vec<K> = Vec::new();
        let mut cur = self.head;
        while cur.is_some()
            invariant
                self.wf(),
                self.order@ == order,
                r@.len() <= order.len(),
                r@ == order.take(r@.len() as int),
                cur == (if r@.len() < order.len() { Some(order[r@.len() as int]) } else { None::<K> }),
            decreases order.len() - r@.len(),
        {
            let k = cur.unwrap();
            let ghost i = r@.len() as int;
            proof {
                assert(self.inner@.contains_key(order[i]));
            }
            let next = match self.inner.get(&k) {
                Some(node) => node.next,
                None => None,
            };
            r.push(k);
            proof {
                assert(self.inner@[order[i]].next == next_of(order, i));
                assert(r@ =~= order.take(i + 1));
            }
            cur = next;
        }
        assert(r@ =~= order);
        r
    }

    /// A mutable reference to the value of `k`; unlike [`LRUCache::get`],
    /// the recency is left as it is.
    pub fn peek_mut(&mut self, k: K) -> (r: Option<&mut V>)
        requires
            old(self).wf(),
        ensures
            final(self).wf(),
            final(self).recency() == old(self).recency(),
            match r {
                Some(v) => {
                    &&& old(self)@.contains_key(k)
                    &&& *v == old(self)@[k]
                    &&& final(self)@ == old(self)@.insert(k, *final(v))
                },
                None => {
                    &&& !old(self)@.contains_key(k)
                    &&& final(self)@ == old(self)@
                },
            },
    {
        if !self.inner.contains_key(&k) {
            return None;
        }
        proof {
            self.lemma_value_updates(k);
        }
        match map_get_mut(&mut self.inner, &k) {
            Some(node) => Some(&mut node.v),
            None => None,
        }
    }

    /// The cache never holds more than `MAX_SIZE` entries, and its recency
    /// list names each of its keys exactly once.
    pub proof fn lemma_capacity(&self)
        requires
            self.wf(),
        ensures
            self@.dom().finite(),
            self@.dom().len() <= MAX_SIZE,
            self.recency().no_duplicates(),
            forall|k: K| self@.contains_key(k) <==> #[trigger] self.recency().contains(k),
    {
        self.lemma_len();
        self.order@.unique_seq_to_set();
        assert(self.inner@.dom() =~= self.order@.to_set());
    }
}

/// A value put under a key is what the cache then holds under that key.
pub proof fn lemma_put_get<K, V>(m: Map<K, V>, order: Seq<K>, max_size: usize, k: K, v: V)
    ensures
        put_view(m, order, max_size, k, v).contains_key(k),
        put_view(m, order, max_size, k, v)[k] == v,
        put_recency(order, max_size, k).last() == k,
{
    if order.contains(k) {
        assert(touch_recency(order, k).last() == k);
    } else if max_size <= order.len() {
        assert(order.remove(0).push(k).last() == k);
    }
}

/// Putting `k` leaves every other key of the cache as it was, except that a
/// new key put into a full cache evicts the least recently used key, and
/// only that one.
pub proof fn lemma_put_others<K, V>(m: Map<K, V>, order: Seq<K>, max_size: usize, k: K, v: V, x: K)
    requires
        x != k,
        forall|y: K| m.contains_key(y) <==> #[trigger] order.contains(y),
    ensures
        put_view(m, order, max_size, k, v).contains_key(x) == (m.contains_key(x) && !(put_evicts(
            order,
            max_size,
            k,
        ) && x == order[0])),
        put_view(m, order, max_size, k, v).contains_key(x) ==> put_view(m, order, max_size, k, v)[x]
            == m[x],
{
}

/// Using a key makes it the most recently used one and keeps the others in
/// their order.
pub proof fn lemma_touch_recency<K>(order: Seq<K>, k: K)
    requires
        order.contains(k),
    ensures
        touch_recency(order, k).last() == k,
        touch_recency(order, k).len() == order.len(),
{
    let i = order.index_of(k);
    assert(order.remove(i).len() == order.len() - 1);
}

} // verus!

//! The shared sorted list: one sequence of nodes, strictly sorted by
//! split-order key, holding both bucket sentinels (no payload) and data
//! entries (with payload).

use vstd::prelude::*;

verus! {

/// A list node: a split-order key, and a payload for data nodes (`None` for
/// bucket sentinels).
#[derive(Debug)]
pub struct Node<V> {
    pub key: u64,
    pub value: Option<V>,
}

/// Strictly increasing keys: the split-order invariant of the shared list.
pub open spec fn sorted<V>(s: Seq<Node<V>>) -> bool {
    forall|p: int, q: int| 0 <= p < q < s.len() ==> s[p].key < s[q].key
}

/// Some node carries the key `k`.
pub open spec fn has_key<V>(s: Seq<Node<V>>, k: u64) -> bool {
    exists|p: int| 0 <= p < s.len() && s[p].key == k
}

/// The position of the node carrying `k` (unique in a sorted list).
pub open spec fn index_of<V>(s: Seq<Node<V>>, k: u64) -> int {
    choose|p: int| 0 <= p < s.len() && s[p].key == k
}

/// The payload stored under key `k`, if the key is present.
pub open spec fn value_at_key<V>(s: Seq<Node<V>>, k: u64) -> Option<V> {
    if has_key(s, k) {
        s[index_of(s, k)].value
    } else {
        None
    }
}

/// How many data nodes (odd keys) the list holds.
pub open spec fn num_data<V>(s: Seq<Node<V>>) -> nat
    decreases s.len(),
{
    if s.len() == 0 {
        0
    } else {
        num_data(s.drop_last()) + (if s.last().key % 2 == 1 {
            1nat
        } else {
            0nat
        })
    }
}

/// The tag discipline: a node's key is odd exactly when it carries a payload.
pub open spec fn parity_ok<V>(s: Seq<Node<V>>) -> bool {
    forall|p: int| 0 <= p < s.len() ==> ((#[trigger] s[p].key % 2 == 1) <==> s[p].value is Some)
}

/// In a sorted list a key occurs at one position only.
pub proof fn lemma_position_of_key<V>(s: Seq<Node<V>>, p: int)
    requires
        sorted(s),
        0 <= p < s.len(),
    ensures
        has_key(s, s[p].key),
        index_of(s, s[p].key) == p,
        value_at_key(s, s[p].key) == s[p].value,
{
    assert(has_key(s, s[p].key));
    let q = index_of(s, s[p].key);
    if q < p {
        assert(s[q].key < s[p].key);
    } else if q > p {
        assert(s[p].key < s[q].key);
    }
}

/// Inserting a node at its sorted position keeps the list sorted.
pub proof fn lemma_sorted_insert<V>(s: Seq<Node<V>>, i: int, node: Node<V>)
    requires
        sorted(s),
        0 <= i <= s.len(),
        forall|p: int| 0 <= p < i ==> s[p].key < node.key,
        i < s.len() ==> s[i].key > node.key,
    ensures
        sorted(s.insert(i, node)),
{
    s.insert_ensures(i, node);
    let t = s.insert(i, node);
    assert forall|p: int, q: int| 0 <= p < q < t.len() implies t[p].key < t[q].key by {
        if p < i {
            assert(t[p] == s[p]);
        } else if p > i {
            assert(t[p] == s[p - 1]);
        }
        if q < i {
            assert(t[q] == s[q]);
        } else if q > i {
            assert(t[q] == s[q - 1]);
        }
    }
}

/// What an insertion at the sorted position does to key lookups: the new key
/// appears with the new payload, every other key is untouched.
pub proof fn lemma_lookup_insert<V>(s: Seq<Node<V>>, i: int, node: Node<V>)
    requires
        sorted(s),
        0 <= i <= s.len(),
        forall|p: int| 0 <= p < i ==> s[p].key < node.key,
        i < s.len() ==> s[i].key > node.key,
    ensures
        sorted(s.insert(i, node)),
        has_key(s.insert(i, node), node.key),
        value_at_key(s.insert(i, node), node.key) == node.value,
        forall|k: u64|
            k != node.key ==> #[trigger] has_key(s.insert(i, node), k) == has_key(s, k),
        forall|k: u64|
            k != node.key ==> #[trigger] value_at_key(s.insert(i, node), k) == value_at_key(s, k),
{
    s.insert_ensures(i, node);
    lemma_sorted_insert(s, i, node);
    let t = s.insert(i, node);
    assert(t[i] == node);
    lemma_position_of_key(t, i);
    assert forall|k: u64| k != node.key implies #[trigger] has_key(t, k) == has_key(s, k) by {
        if has_key(s, k) {
            let p = index_of(s, k);
            if p < i {
                assert(t[p] == s[p]);
            } else {
                assert(t[p + 1] == s[p]);
            }
            assert(has_key(t, k));
        }
        if has_key(t, k) {
            let p = index_of(t, k);
            if p < i {
                assert(s[p] == t[p]);
                assert(has_key(s, k));
            } else if p > i {
                assert(s[p - 1] == t[p]);
                assert(has_key(s, k));
            }
        }
    }
    assert forall|k: u64| k != node.key implies #[trigger] value_at_key(t, k) == value_at_key(
        s,
        k,
    ) by {
        if has_key(s, k) {
            let p = index_of(s, k);
            lemma_position_of_key(s, p);
            if p < i {
                assert(t[p] == s[p]);
                lemma_position_of_key(t, p);
            } else {
                assert(t[p + 1] == s[p]);
                lemma_position_of_key(t, p + 1);
            }
        }
    }
}

/// Removing the node at a position keeps the list sorted.
pub proof fn lemma_sorted_remove<V>(s: Seq<Node<V>>, i: int)
    requires
        sorted(s),
        0 <= i < s.len(),
    ensures
        sorted(s.remove(i)),
        forall|p: int| 0 <= p < i ==> #[trigger] s.remove(i)[p].key < s[i].key,
        i < s.remove(i).len() ==> s.remove(i)[i].key > s[i].key,
    decreases s.len(),
{
    s.remove_ensures(i);
    let t = s.remove(i);
    assert forall|p: int, q: int| 0 <= p < q < t.len() implies t[p].key < t[q].key by {
        if p < i {
            assert(t[p] == s[p]);
        } else {
            assert(t[p] == s[p + 1]);
        }
        if q < i {
            assert(t[q] == s[q]);
        } else {
            assert(t[q] == s[q + 1]);
        }
    }
}

/// Removing a node and putting it back at the same position is the identity.
pub proof fn lemma_remove_insert_id<V>(s: Seq<Node<V>>, i: int)
    requires
        0 <= i < s.len(),
    ensures
        s.remove(i).insert(i, s[i]) == s,
{
    s.remove_ensures(i);
    s.remove(i).insert_ensures(i, s[i]);
    assert(s.remove(i).insert(i, s[i]) =~= s);
}

/// What a removal does to key lookups: the removed key disappears, every
/// other key is untouched.
pub proof fn lemma_lookup_remove<V>(s: Seq<Node<V>>, i: int)
    requires
        sorted(s),
        0 <= i < s.len(),
    ensures
        sorted(s.remove(i)),
        !has_key(s.remove(i), s[i].key),
        forall|k: u64| k != s[i].key ==> #[trigger] has_key(s.remove(i), k) == has_key(s, k),
        forall|k: u64|
            k != s[i].key ==> #[trigger] value_at_key(s.remove(i), k) == value_at_key(s, k),
        num_data(s) == num_data(s.remove(i)) + (if s[i].key % 2 == 1 {
            1nat
        } else {
            0nat
        }),
{
    lemma_sorted_remove(s, i);
    let t = s.remove(i);
    lemma_remove_insert_id(s, i);
    lemma_lookup_insert(t, i, s[i]);
    lemma_num_data_insert(t, i, s[i]);
    if has_key(t, s[i].key) {
        let p = index_of(t, s[i].key);
        s.remove_ensures(i);
        if p < i {
            assert(s[p] == t[p]);
            assert(s[p].key == s[i].key);
        } else {
            assert(s[p + 1] == t[p]);
            assert(s[p + 1].key == s[i].key);
        }
    }
}

/// Inserting a node adds one data node if and only if its key is odd.
pub proof fn lemma_num_data_insert<V>(s: Seq<Node<V>>, i: int, node: Node<V>)
    requires
        0 <= i <= s.len(),
    ensures
        num_data(s.insert(i, node)) == num_data(s) + (if node.key % 2 == 1 {
            1nat
        } else {
            0nat
        }),
    decreases s.len(),
{
    s.insert_ensures(i, node);
    let t = s.insert(i, node);
    if i == s.len() {
        assert(t.drop_last() =~= s);
        assert(t.last() == node);
    } else {
        assert(t.last() == s.last());
        assert(t.drop_last() =~= s.drop_last().insert(i, node)) by {
            s.drop_last().insert_ensures(i, node);
        }
        lemma_num_data_insert(s.drop_last(), i, node);
    }
}

/// There are never more data nodes than nodes; with a sentinel present the
/// count is strictly smaller.
pub proof fn lemma_num_data_le_len<V>(s: Seq<Node<V>>)
    ensures
        num_data(s) <= s.len(),
    decreases s.len(),
{
    if s.len() > 0 {
        lemma_num_data_le_len(s.drop_last());
    }
}

/// A sentinel (even key) never counts as data, so its presence keeps the data
/// count strictly below the length.
pub proof fn lemma_num_data_lt_len<V>(s: Seq<Node<V>>, p: int)
    requires
        0 <= p < s.len(),
        s[p].key % 2 == 0,
    ensures
        num_data(s) < s.len(),
    decreases s.len(),
{
    if p == s.len() - 1 {
        lemma_num_data_le_len(s.drop_last());
    } else {
        lemma_num_data_lt_len(s.drop_last(), p);
        assert(s.drop_last()[p] == s[p]);
    }
}

/// The shared sorted list, stored as one vector of nodes.
#[derive(Debug)]
pub struct List<V> {
    nodes: Vec<Node<V>>,
}

impl<V> View for List<V> {
    type V = Seq<Node<V>>;

    closed spec fn view(&self) -> Seq<Node<V>> {
        self.nodes@
    }
}

impl<V> List<V> {
    /// Creates an empty list.
    pub fn new() -> (r: Self)
        ensures
            r@ == Seq::<Node<V>>::empty(),
    {
        let nodes: Vec<Node<V>> = Vec::new();
        proof {
            assert(nodes@ =~= Seq::<Node<V>>::empty());
        }
        List { nodes }
    }

    /// The number of nodes.
    pub fn len(&self) -> (r: usize)
        ensures
            r == self@.len(),
    {
        self.nodes.len()
    }

    /// The key of the node at `i`.
    pub fn key_at(&self, i: usize) -> (r: u64)
        requires
            i < self@.len(),
        ensures
            r == self@[i as int].key,
    {
        self.nodes[i].key
    }

    /// A borrow of the payload of the node at `i`.
    pub fn value_at(&self, i: usize) -> (r: &Option<V>)
        requires
            i < self@.len(),
        ensures
            *r == self@[i as int].value,
    {
        &self.nodes[i].value
    }

    /// Walks forward from `start` to the first node whose key is at least
    /// `target`; reports whether that node carries `target` itself.  All keys
    /// before `start` must already be known smaller than `target`.
    pub fn find_from(&self, start: usize, target: u64) -> (r: (usize, bool))
        requires
            sorted(self@),
            start <= self@.len(),
            forall|p: int| 0 <= p < start ==> self@[p].key < target,
        ensures
            start <= r.0 <= self@.len(),
            forall|p: int| 0 <= p < r.0 ==> self@[p].key < target,
            r.0 < self@.len() ==> self@[r.0 as int].key >= target,
            r.1 == has_key(self@, target),
            r.1 ==> r.0 < self@.len() && self@[r.0 as int].key == target,
    {
        let n = self.nodes.len();
        let mut i = start;
        let mut found = false;
        while i < n
            invariant_except_break
                !found,
            invariant
                sorted(self@),
                n == self@.len(),
                start <= i <= n,
                forall|p: int| 0 <= p < i ==> self@[p].key < target,
            ensures
                start <= i <= n,
                forall|p: int| 0 <= p < i ==> self@[p].key < target,
                i < n ==> self@[i as int].key >= target,
                found == (i < n && self@[i as int].key == target),
            decreases n - i,
        {
            let k = self.nodes[i].key;
            if k > target {
                break ;
            } else if k == target {
                found = true;
                break ;
            }
            i = i + 1;
        }
        proof {
            if found {
                assert(has_key(self@, target));
            } else {
                assert forall|p: int| 0 <= p < self@.len() implies self@[p].key != target by {
                    if p >= i && i < self@.len() {
                        if p > i {
                            assert(self@[i as int].key < self@[p].key);
                        }
                    }
                }
            }
        }
        (i, found)
    }

    /// The first position whose key is at least `target`, found by binary
    /// search over the sorted order.
    pub fn lower_bound(&self, target: u64) -> (r: usize)
        requires
            sorted(self@),
        ensures
            r <= self@.len(),
            forall|p: int| 0 <= p < r ==> self@[p].key < target,
            r < self@.len() ==> self@[r as int].key >= target,
    {
        let mut lo: usize = 0;
        let mut hi: usize = self.nodes.len();
        while lo < hi
            invariant
                sorted(self@),
                lo <= hi <= self@.len(),
                forall|p: int| 0 <= p < lo ==> self@[p].key < target,
                forall|p: int| hi <= p < self@.len() ==> self@[p].key >= target,
            decreases hi - lo,
        {
            let mid = lo + (hi - lo) / 2;
            if self.nodes[mid].key < target {
                proof {
                    assert forall|p: int| 0 <= p < mid + 1 implies self@[p].key < target by {
                        if p < mid {
                            assert(self@[p].key < self@[mid as int].key);
                        }
                    }
                }
                lo = mid + 1;
            } else {
                proof {
                    assert forall|p: int| mid <= p < self@.len() implies self@[p].key
                        >= target by {
                        if p > mid {
                            assert(self@[mid as int].key < self@[p].key);
                        }
                    }
                }
                hi = mid;
            }
        }
        lo
    }

    /// Inserts a node at its sorted position.
    pub fn insert_at(&mut self, i: usize, node: Node<V>)
        requires
            sorted(old(self)@),
            i <= old(self)@.len(),
            forall|p: int| 0 <= p < i ==> old(self)@[p].key < node.key,
            i < old(self)@.len() ==> old(self)@[i as int].key > node.key,
        ensures
            final(self)@ == old(self)@.insert(i as int, node),
            sorted(final(self)@),
    {
        proof {
            lemma_sorted_insert(self@, i as int, node);
        }
        self.nodes.insert(i, node);
    }

    /// Removes and returns the node at `i`.
    pub fn remove_at(&mut self, i: usize) -> (r: Node<V>)
        requires
            sorted(old(self)@),
            i < old(self)@.len(),
        ensures
            r == old(self)@[i as int],
            final(self)@ == old(self)@.remove(i as int),
            sorted(final(self)@),
    {
        proof {
            lemma_sorted_remove(self@, i as int);
        }
        self.nodes.remove(i)
    }
}

} // verus!

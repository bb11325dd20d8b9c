//! The split-ordered map: a growing hash map over 63-bit keys whose entries
//! all live in one list sorted by bit-reversed keys, so that doubling the
//! bucket count never moves an entry.

use vstd::prelude::*;

verus! {

use crate::growable_array::GrowableArray;
use crate::list::{
    has_key, index_of, lemma_lookup_insert, lemma_lookup_remove, lemma_num_data_insert,
    lemma_num_data_lt_len, lemma_position_of_key, num_data, parity_ok, sorted, value_at_key,
    List, Node,
};
use crate::so_key::{
    ancestor_bucket, bucket_key_spec, data_key_spec, lemma_bucket_key_le_rev,
    lemma_bucket_key_ne_data_key, lemma_bucket_segment, lemma_data_key_injective,
    lemma_log2floor_unique, lemma_odd_key_has_source, lemma_parent_bucket_lt,
    lemma_parent_key_lt, lemma_rev_bits_one, lemma_rev_bits_zero, lemma_so_rev_bound,
    lemma_so_rev_even, log2floor, parent_bucket_spec, reverse_bits_u64, valid_key,
};
use vstd::arithmetic::div_mod::{
    lemma_fundamental_div_mod, lemma_mod_division_less_than_divisor, lemma_small_mod,
};
use vstd::arithmetic::power2::{
    lemma2_to64, lemma2_to64_rest, lemma_pow2_pos, lemma_pow2_strictly_increases,
    lemma_pow2_unfold, pow2,
};

/// `size` is doubled when `count` exceeds `size * LOAD_FACTOR`.
pub const LOAD_FACTOR: u64 = 2;

/// Every materialized bucket of a directory has its parent (top set bit
/// cleared) materialized too.
#[verifier::opaque]
spec fn ancestors_closed(d: GrowableArray<u64>) -> bool {
    forall|b: nat|
        2 <= b && #[trigger] d.slot_spec(b) is Some ==> d.slot_spec(parent_bucket_spec(b)) is Some
}

/// The keys a lookup would find in a list: those whose data key some node
/// carries.
spec fn live_keys<V>(s: Seq<Node<V>>) -> Set<u64> {
    Set::new(|k: u64| valid_key(k) && has_key(s, (data_key_spec(k)) as u64))
}

/// In a sorted list, the data nodes are counted exactly by the live keys:
/// each odd key belongs to one valid key and occurs at most once.
proof fn lemma_live_keys_count<V>(s: Seq<Node<V>>)
    requires
        sorted(s),
    ensures
        live_keys(s).finite(),
        live_keys(s).len() == num_data(s),
    decreases s.len(),
{
    lemma2_to64();
    lemma2_to64_rest();
    if s.len() == 0 {
        assert(live_keys(s) =~= Set::<u64>::empty());
    } else {
        let t = s.drop_last();
        let last = s.last();
        assert(sorted(t)) by {
            assert forall|p: int, q: int| 0 <= p < q < t.len() implies t[p].key < t[q].key by {
                assert(s[p].key < s[q].key);
            }
        }
        lemma_live_keys_count(t);
        // no earlier node shares the last key: the order is strict
        assert(!has_key(t, last.key)) by {
            if has_key(t, last.key) {
                let w = index_of(t, last.key);
                assert(s[w].key < last.key);
            }
        }
        if last.key % 2 == 0 {
            assert(live_keys(s) =~= live_keys(t)) by {
                assert forall|k: u64|
                    valid_key(k) implies #[trigger] has_key(s, (data_key_spec(k)) as u64)
                    == has_key(t, (data_key_spec(k)) as u64) by {
                    lemma_so_rev_even(k);
                    lemma_so_rev_bound(k);
                    let dk = (data_key_spec(k)) as u64;
                    assert(dk % 2 == 1);
                    if has_key(s, dk) {
                        let w = index_of(s, dk);
                        assert(w < t.len() && t[w] == s[w]);
                    }
                    if has_key(t, dk) {
                        let w = index_of(t, dk);
                        assert(s[w] == t[w]);
                    }
                }
            }
        } else {
            let o = last.key;
            lemma_odd_key_has_source(o);
            let k0 = (crate::so_key::rev_bits((o - 1) as int, 64)) as u64;
            assert(live_keys(s) =~= live_keys(t).insert(k0)) by {
                assert(has_key(s, o)) by {
                    assert(s[s.len() - 1].key == o);
                }
                assert((data_key_spec(k0)) as u64 == o) by {
                    lemma_so_rev_bound(k0);
                }
                assert forall|k: u64| #[trigger] live_keys(s).contains(k) implies live_keys(
                    t,
                ).insert(k0).contains(k) by {
                    let dk = (data_key_spec(k)) as u64;
                    if k != k0 {
                        lemma_so_rev_bound(k);
                        lemma_so_rev_even(k);
                        if dk == o {
                            lemma_data_key_injective(k, k0);
                        }
                        let w = index_of(s, dk);
                        assert(w < t.len() && t[w] == s[w]);
                    }
                }
                assert forall|k: u64| #[trigger] live_keys(t).insert(k0).contains(
                    k,
                ) implies live_keys(s).contains(k) by {
                    if k == k0 {
                    } else {
                        let dk = (data_key_spec(k)) as u64;
                        let w = index_of(t, dk);
                        assert(s[w] == t[w]);
                    }
                }
            }
            assert(!live_keys(t).contains(k0)) by {
                lemma_so_rev_bound(k0);
            }
        }
    }
}

/// A non-blocking-style map from keys in `[0, 2^63)` to values of type `V`:
/// one shared sorted list holds bucket sentinels and data entries
/// interleaved in split order, and a growable directory remembers which
/// bucket sentinels exist.
#[derive(Debug)]
pub struct SplitOrderedList<V> {
    /// The shared list, sorted by split-order key; sentinels carry `None`.
    list: List<V>,
    /// Directory: slot `b` holds bucket `b`'s sentinel key once materialized.
    buckets: GrowableArray<u64>,
    /// Number of buckets; a power of two, only ever grows.
    size: u64,
    /// Number of data entries.
    count: u64,
}

impl<V> View for SplitOrderedList<V> {
    type V = Map<u64, V>;

    /// The map a client sees: key `k` is bound when the list holds a data
    /// node under `k`'s split-order data key.
    closed spec fn view(&self) -> Map<u64, V> {
        Map::new(
            |k: u64| valid_key(k) && has_key(self.list@, (data_key_spec(k)) as u64),
            |k: u64| value_at_key(self.list@, (data_key_spec(k)) as u64).unwrap(),
        )
    }
}

impl<V> SplitOrderedList<V> {
    /// The current bucket count.
    pub closed spec fn size_spec(&self) -> u64 {
        self.size
    }

    /// The current number of data entries.
    pub closed spec fn count_spec(&self) -> u64 {
        self.count
    }

    /// The split-order traversal of the shared list: all keys in list order.
    pub closed spec fn so_key_seq(&self) -> Seq<u64> {
        Seq::new(self.list@.len(), |i: int| self.list@[i].key)
    }

    /// Whether bucket `b`'s sentinel is published in the directory.
    pub closed spec fn bucket_materialized(&self, b: nat) -> bool {
        self.buckets.slot_spec(b) is Some
    }

    /// Everything the structure promises between operations.
    pub closed spec fn wf(&self) -> bool {
        &&& sorted(self.list@)
        &&& parity_ok(self.list@)
        &&& self.count as nat == num_data(self.list@)
        &&& self.buckets.wf()
        &&& self.buckets.slot_spec(0) is Some
        &&& self.buckets.slot_spec(1) is Some
        &&& forall|b: nat|
            b < pow2(63) && #[trigger] self.buckets.slot_spec(b) is Some ==> {
                &&& self.buckets.slot_spec(b).unwrap() as int == bucket_key_spec(b as u64)
                &&& has_key(self.list@, self.buckets.slot_spec(b).unwrap())
            }
        &&& forall|p: int|
            0 <= p < self.list@.len() && (#[trigger] self.list@[p].key) % 2 == 0
                ==> exists|b2: u64|
                b2 < self.size && self.list@[p].key as int == #[trigger] bucket_key_spec(b2)
        &&& ancestors_closed(self.buckets)
        &&& exists|j: nat| 1 <= j <= 63 && self.size == #[trigger] pow2(j)
        &&& self.size as int <= usize::MAX as int
    }

    /// The split-order key that anchors bucket `bucket`.
    pub fn get_so_bucket_key(bucket: u64) -> (r: u64)
        ensures
            r as int == bucket_key_spec(bucket),
    {
        reverse_bits_u64(bucket)
    }

    /// The split-order key under which data for `key` is stored.
    pub fn get_so_data_key(key: u64) -> (r: u64)
        requires
            valid_key(key),
        ensures
            r as int == data_key_spec(key),
    {
        let rv = reverse_bits_u64(key);
        proof {
            lemma_so_rev_even(key);
            lemma_so_rev_bound(key);
            assert(rv | 1 == rv + 1) by (bit_vector)
                requires
                    rv % 2 == 0,
            ;
        }
        rv | 1
    }

    /// The key precondition, spelled out: the top bit is reserved.
    fn assert_valid_key(key: u64)
        requires
            valid_key(key),
    {
        assert(key < 0x8000_0000_0000_0000u64);
    }

    /// The parent of `bucket`: the index with the top set bit cleared, which
    /// is the unique ancestor that existed at half the table size.
    fn get_parent_bucket(&self, bucket: u64) -> (r: u64)
        requires
            bucket >= 1,
        ensures
            r < bucket,
            r as nat == parent_bucket_spec(bucket as nat),
            exists|m: nat|
                m <= 63 && pow2(m) <= bucket < pow2((m + 1) as nat) && r as int == bucket - #[trigger] pow2(m),
    {
        proof {
            lemma2_to64();
        }
        let mut m: usize = 0;
        let mut p: u64 = 1;
        while bucket / p >= 2
            invariant
                p as int == pow2(m as nat),
                1 <= p <= bucket,
                m <= 63,
                bucket >= 1,
            decreases 64 - m,
        {
            proof {
                lemma_fundamental_div_mod(bucket as int, p as int);
                lemma_mod_division_less_than_divisor(bucket as int, p as int);
                assert(bucket >= 2 * p) by (nonlinear_arith)
                    requires
                        bucket as int / p as int >= 2,
                        bucket as int == p as int * (bucket as int / p as int) + bucket as int
                            % p as int,
                        bucket as int % p as int >= 0,
                        p > 0,
                ;
                lemma_pow2_unfold((m + 1) as nat);
                assert((m + 1) as nat <= 63) by {
                    lemma2_to64();
                    lemma2_to64_rest();
                    if m + 1 > 63 {
                        assert(pow2((m + 1) as nat) == 2 * pow2(m as nat));
                    }
                }
            }
            p = p * 2;
            m = m + 1;
        }
        proof {
            lemma_fundamental_div_mod(bucket as int, p as int);
            lemma_mod_division_less_than_divisor(bucket as int, p as int);
            assert(bucket < 2 * p) by (nonlinear_arith)
                requires
                    bucket as int / p as int <= 1,
                    bucket as int == p as int * (bucket as int / p as int) + bucket as int
                        % p as int,
                    0 <= (bucket as int % (p as int)) < (p as int),
                    p > 0,
            ;
            lemma_pow2_unfold((m + 1) as nat);
            assert(pow2(m as nat) <= bucket < pow2((m + 1) as nat));
            lemma_log2floor_unique(bucket as nat, m as nat);
        }
        bucket - p
    }

    /// Two maps whose lists answer every data-key lookup alike have the same
    /// view.
    proof fn lemma_same_view(a: &SplitOrderedList<V>, b: &SplitOrderedList<V>)
        requires
            forall|k: u64|
                valid_key(k) ==> #[trigger] has_key(a.list@, (data_key_spec(k)) as u64)
                    == has_key(b.list@, (data_key_spec(k)) as u64) && value_at_key(
                    a.list@,
                    (data_key_spec(k)) as u64,
                ) == value_at_key(b.list@, (data_key_spec(k)) as u64),
        ensures
            a@ == b@,
    {
        assert(a@ =~= b@);
    }

    /// The current table size, as a power of two: `size == pow2(j)`.
    proof fn size_log(&self) -> (j: nat)
        requires
            self.wf(),
        ensures
            1 <= j <= 63,
            self.size == pow2(j),
            2 <= self.size <= pow2(63),
    {
        let j = choose|j: nat| 1 <= j <= 63 && self.size == #[trigger] pow2(j);
        lemma2_to64();
        lemma2_to64_rest();
        if j < 63 {
            lemma_pow2_strictly_increases(j, 63);
        }
        j
    }

    /// Positions a cursor immediately past bucket `bucket`'s sentinel: the
    /// node just before the returned position is the sentinel itself, and
    /// every node before it has a smaller key.
    fn get_cursor_to_bucket(&self, bucket: u64) -> (start: usize)
        requires
            self.wf(),
            valid_key(bucket),
            self.buckets.slot_spec(bucket as nat) is Some,
        ensures
            0 < start <= self.list@.len(),
            self.list@[start - 1].key as int == bucket_key_spec(bucket),
            forall|p: int|
                0 <= p < start ==> self.list@[p].key as int <= bucket_key_spec(bucket),
    {
        let bkey = Self::get_so_bucket_key(bucket);
        proof {
            lemma_so_rev_even(bucket);
            lemma_so_rev_bound(bucket);
            lemma2_to64();
            lemma2_to64_rest();
        }
        let start = self.list.lower_bound(bkey + 1);
        proof {
            // the directory points at this bucket's sentinel, so the
            // sentinel key is in the list, and the lower bound for the next
            // larger key stops exactly one place past it
            let k = self.buckets.slot_spec(bucket as nat).unwrap();
            assert(k as int == bucket_key_spec(bucket) && has_key(self.list@, k));
            assert(k == bkey);
            let w = index_of(self.list@, k);
            assert(0 <= w < self.list@.len() && self.list@[w].key == bkey);
            assert(w < start) by {
                if w >= start {
                    assert(self.list@[start as int].key >= bkey + 1);
                    if w > start {
                        assert(self.list@[start as int].key < self.list@[w].key);
                    }
                }
            }
            assert(self.list@[start - 1].key == bkey) by {
                if self.list@[start - 1].key != bkey {
                    assert(w < start - 1);
                    assert(self.list@[w].key < self.list@[start - 1].key);
                    assert(self.list@[start - 1].key < bkey + 1);
                }
            }
        }
        start
    }

    /// Links bucket `bucket`'s sentinel into the list if it is not there yet,
    /// and publishes it in the directory; repeating the call changes nothing.
    fn insert_bucket(&mut self, start: usize, bucket: u64)
        requires
            old(self).wf(),
            valid_key(bucket),
            bucket < old(self).size_spec(),
            (bucket as int) < usize::MAX as int,
            old(self).buckets.slot_spec(parent_bucket_spec(bucket as nat)) is Some,
            start <= old(self).list@.len(),
            forall|p: int|
                0 <= p < start ==> (old(self).list@[p].key as int) < bucket_key_spec(bucket),
        ensures
            final(self).wf(),
            final(self)@ == old(self)@,
            final(self).size == old(self).size,
            final(self).count == old(self).count,
            final(self).buckets.slot_spec(bucket as nat) is Some,
            forall|b: nat|
                b != bucket as nat ==> final(self).buckets.slot_spec(b) == old(
                    self,
                ).buckets.slot_spec(b),
            old(self).buckets.slot_spec(bucket as nat) is Some ==> *final(self) == *old(self),
    {
        let bucket_key = Self::get_so_bucket_key(bucket);
        if self.buckets.get_slot(bucket as usize).is_some() {
            return ;
        }
        proof {
            lemma_so_rev_even(bucket);
            lemma_so_rev_bound(bucket);
        }
        let (pos, found) = self.list.find_from(start, bucket_key);
        let ghost pre = *self;
        if !found {
            proof {
                if pos < self.list@.len() && self.list@[pos as int].key == bucket_key {
                    assert(has_key(self.list@, bucket_key));
                }
            }
            self.list.insert_at(pos, Node { key: bucket_key, value: None });
            proof {
                let node = Node::<V> { key: bucket_key, value: None };
                lemma_lookup_insert(pre.list@, pos as int, node);
                lemma_num_data_insert(pre.list@, pos as int, node);
                pre.list@.insert_ensures(pos as int, node);
                // the tag discipline survives: the new node is an even-keyed
                // sentinel with no payload
                assert forall|p: int|
                    0 <= p < self.list@.len() implies ((#[trigger] self.list@[p].key % 2 == 1)
                    <==> self.list@[p].value is Some) by {
                    if p < pos {
                        assert(self.list@[p] == pre.list@[p]);
                    } else if p > pos {
                        assert(self.list@[p] == pre.list@[p - 1]);
                    }
                }
            }
        }
        self.buckets.set_slot(bucket as usize, bucket_key);
        proof {
            // no data key can collide with the even sentinel key
            assert forall|k: u64| valid_key(k) implies #[trigger] has_key(
                self.list@,
                (data_key_spec(k)) as u64,
            ) == has_key(pre.list@, (data_key_spec(k)) as u64) && value_at_key(
                self.list@,
                (data_key_spec(k)) as u64,
            ) == value_at_key(pre.list@, (data_key_spec(k)) as u64) by {
                lemma_bucket_key_ne_data_key(bucket, k);
                lemma_so_rev_even(k);
                lemma_so_rev_bound(k);
            }
            Self::lemma_same_view(self, &pre);
            Self::lemma_same_view(&pre, old(self));
            // the directory invariant: the new slot holds this bucket's
            // sentinel key, which is now surely in the list
            assert(self.buckets.slot_spec(bucket as nat).unwrap() == bucket_key);
            assert(has_key(self.list@, bucket_key));
            assert forall|b: nat|
                b < pow2(63) && #[trigger] self.buckets.slot_spec(b) is Some implies {
                &&& self.buckets.slot_spec(b).unwrap() as int == bucket_key_spec(b as u64)
                &&& has_key(self.list@, self.buckets.slot_spec(b).unwrap())
            } by {
                if b != bucket as nat {
                    assert(self.buckets.slot_spec(b) == old(self).buckets.slot_spec(b));
                    if old(self).buckets.slot_spec(b) is Some {
                        let k = old(self).buckets.slot_spec(b).unwrap();
                        assert(has_key(pre.list@, k));
                        if !found {
                            let q = index_of(pre.list@, k);
                            pre.list@.insert_ensures(pos as int, Node::<V> {
                                key: bucket_key,
                                value: None,
                            });
                            if q < pos {
                                assert(self.list@[q] == pre.list@[q]);
                            } else {
                                assert(self.list@[q + 1] == pre.list@[q]);
                            }
                        }
                    }
                }
            }
            // every even key still names a bucket below the current size
            assert forall|p2: int|
                0 <= p2 < self.list@.len() && (#[trigger] self.list@[p2].key) % 2
                    == 0 implies exists|b2: u64|
                b2 < self.size && self.list@[p2].key as int == #[trigger] bucket_key_spec(
                    b2,
                ) by {
                if !found {
                    pre.list@.insert_ensures(pos as int, Node::<V> {
                        key: bucket_key,
                        value: None,
                    });
                    if p2 == pos {
                        assert(bucket < self.size && self.list@[p2].key as int
                            == bucket_key_spec(bucket));
                    } else {
                        let p0: int = if p2 < pos {
                            p2
                        } else {
                            p2 - 1
                        };
                        assert(self.list@[p2] == pre.list@[p0]);
                        assert(pre.list@[p0].key % 2 == 0);
                        let b2 = choose|b2: u64|
                            b2 < pre.size && pre.list@[p0].key as int == #[trigger] bucket_key_spec(
                                b2,
                            );
                        assert(b2 < self.size && self.list@[p2].key as int == bucket_key_spec(
                            b2,
                        ));
                    }
                } else {
                    assert(pre.list@[p2].key % 2 == 0);
                    let b2 = choose|b2: u64|
                        b2 < pre.size && pre.list@[p2].key as int == #[trigger] bucket_key_spec(
                            b2,
                        );
                    assert(b2 < self.size && self.list@[p2].key as int == bucket_key_spec(b2));
                }
            }
            // materialized buckets stay ancestor-closed: the new bucket's
            // parent slot was set before this call, and every other slot
            // kept its value
            assert(ancestors_closed(self.buckets)) by {
                reveal(ancestors_closed);
                assert forall|b2: nat|
                    2 <= b2 && #[trigger] self.buckets.slot_spec(b2) is Some implies self
                    .buckets.slot_spec(parent_bucket_spec(b2)) is Some by {
                    if b2 == bucket as nat {
                        if parent_bucket_spec(b2) != bucket as nat {
                            assert(self.buckets.slot_spec(parent_bucket_spec(b2)) == old(
                                self,
                            ).buckets.slot_spec(parent_bucket_spec(b2)));
                        }
                    } else {
                        assert(self.buckets.slot_spec(b2) == old(self).buckets.slot_spec(b2));
                        assert(old(self).buckets.slot_spec(parent_bucket_spec(b2)) is Some);
                        if parent_bucket_spec(b2) != bucket as nat {
                            assert(self.buckets.slot_spec(parent_bucket_spec(b2)) == old(
                                self,
                            ).buckets.slot_spec(parent_bucket_spec(b2)));
                        }
                    }
                }
            }
        }
    }

    /// Ensures bucket `bucket`'s sentinel exists, materializing its ancestor
    /// chain first, parents before children: on return the slot of the
    /// bucket's parent (the index with the top set bit cleared) is
    /// materialized too, and the directory's ancestor-closedness (see
    /// `lemma_ancestor_chain_materialized`) extends that down the whole
    /// chain to the pre-created buckets 0 and 1.
    fn make_bucket(&mut self, bucket: u64)
        requires
            old(self).wf(),
            bucket < old(self).size_spec(),
            old(self).buckets.slot_spec(bucket as nat) is None,
        ensures
            final(self).wf(),
            final(self)@ == old(self)@,
            final(self).size == old(self).size,
            final(self).count == old(self).count,
            final(self).buckets.slot_spec(bucket as nat) is Some,
            final(self).buckets.slot_spec(parent_bucket_spec(bucket as nat)) is Some,
            forall|b: nat|
                old(self).buckets.slot_spec(b) is Some ==> final(self).buckets.slot_spec(b)
                    == old(self).buckets.slot_spec(b),
        decreases bucket,
    {
        proof {
            let j = old(self).size_log();
            lemma2_to64();
            lemma2_to64_rest();
            assert(bucket >= 2) by {
                if bucket == 0 || bucket == 1 {
                    assert(old(self).buckets.slot_spec(bucket as nat) is Some);
                }
            }
            assert(valid_key(bucket));
            assert((bucket as int) < usize::MAX as int);
        }
        let parent = self.get_parent_bucket(bucket);
        let ghost m0 = choose|m: nat|
            m <= 63 && pow2(m) <= bucket < pow2((m + 1) as nat) && parent as int == bucket - #[trigger] pow2(m);
        if self.buckets.get_slot(parent as usize).is_none() {
            self.make_bucket(parent);
        }
        proof {
            lemma_parent_key_lt(bucket, m0);
        }
        let start = self.get_cursor_to_bucket(parent);
        self.insert_bucket(start, bucket);
        proof {
            assert(self.buckets.slot_spec(parent as nat) is Some);
        }
    }

    /// Finds the start of the bucket segment for `key`, lazily materializing
    /// the bucket's sentinel (and its ancestors) on first touch; a second
    /// call for a bucket that exists changes nothing at all.  The returned
    /// cursor sits immediately past the bucket's sentinel node.
    fn lookup_bucket(&mut self, key: u64) -> (start: usize)
        requires
            old(self).wf(),
            valid_key(key),
        ensures
            final(self).wf(),
            final(self)@ == old(self)@,
            final(self).size == old(self).size,
            final(self).count == old(self).count,
            0 < start <= final(self).list@.len(),
            final(self).list@[start - 1].key as int == bucket_key_spec(key % old(self).size),
            forall|p: int|
                0 <= p < start ==> final(self).list@[p].key as int <= bucket_key_spec(
                    key % old(self).size,
                ),
            final(self).buckets.slot_spec((key % old(self).size) as nat) is Some,
            old(self).buckets.slot_spec((key % old(self).size) as nat) is Some ==> *final(self)
                == *old(self),
    {
        proof {
            let j = old(self).size_log();
            lemma2_to64();
            lemma2_to64_rest();
            lemma_mod_division_less_than_divisor(key as int, old(self).size as int);
        }
        let size = self.size;
        let bucket = key % size;
        let slot = self.buckets.get_slot(bucket as usize);
        if slot.is_none() {
            self.make_bucket(bucket);
        }
        self.get_cursor_to_bucket(bucket)
    }

    /// Positions the bucket cursor from `lookup_bucket` at the split-order
    /// place of `key` itself.  Returns whether the key is present and the
    /// position, usable for an insertion or a removal at that exact point;
    /// the bucket's sentinel exists afterwards.
    fn find(&mut self, key: u64) -> (r: (bool, usize))
        requires
            old(self).wf(),
            valid_key(key),
        ensures
            final(self).wf(),
            final(self)@ == old(self)@,
            final(self).size == old(self).size,
            final(self).count == old(self).count,
            final(self).buckets.slot_spec((key % old(self).size) as nat) is Some,
            r.0 == old(self)@.contains_key(key),
            r.1 <= final(self).list@.len(),
            forall|p: int|
                0 <= p < r.1 ==> (final(self).list@[p].key as int) < data_key_spec(key),
            r.1 < final(self).list@.len() ==> final(self).list@[r.1 as int].key as int
                >= data_key_spec(key),
            r.0 ==> r.1 < final(self).list@.len() && final(self).list@[r.1 as int].key as int
                == data_key_spec(key) && final(self).list@[r.1 as int].value == Some(
                old(self)@[key],
            ),
    {
        let ghost j = old(self).size_log();
        let start = self.lookup_bucket(key);
        let dk = Self::get_so_data_key(key);
        proof {
            lemma_bucket_key_le_rev(key, j);
            lemma_so_rev_even(key);
            lemma_so_rev_bound(key);
            lemma_pow2_pos(j);
            assert(key % old(self).size == (key as int % pow2(j) as int) as u64);
            assert forall|p: int| 0 <= p < start implies (self.list@[p].key as int) < dk as int by {
                assert(self.list@[p].key as int <= bucket_key_spec(key % old(self).size));
            }
        }
        let (pos, found) = self.list.find_from(start, dk);
        proof {
            if found {
                lemma_position_of_key(self.list@, pos as int);
                assert(self@.contains_key(key));
                assert(self@[key] == value_at_key(self.list@, dk).unwrap());
                assert(self.list@[pos as int].key % 2 == 1);
            }
        }
        (found, pos)
    }

    /// Looks the key up; the returned borrow is valid while the map is not
    /// changed.  Never blocks, never changes the visible map.
    pub fn lookup(&mut self, key: u64) -> (r: Option<&V>)
        requires
            old(self).wf(),
            valid_key(key),
        ensures
            final(self).wf(),
            final(self)@ == old(self)@,
            final(self).size_spec() == old(self).size_spec(),
            final(self).count_spec() == old(self).count_spec(),
            match r {
                Some(v) => old(self)@.contains_key(key) && *v == old(self)@[key],
                None => !old(self)@.contains_key(key),
            },
    {
        Self::assert_valid_key(key);
        let (found, pos) = self.find(key);
        if found {
            self.list.value_at(pos).as_ref()
        } else {
            None
        }
    }


    /// What inserting one data node at its sorted position does to the
    /// structure: the tag discipline, the directory invariant, the sentinel
    /// bookkeeping and the data count all survive, and the view gains
    /// exactly the one binding.
    #[verifier::rlimit(100)]
    proof fn lemma_insert_data_node(pre: Self, post: Self, key: u64, value: V, pos: int)
        requires
            pre.wf(),
            valid_key(key),
            !has_key(pre.list@, (data_key_spec(key)) as u64),
            0 <= pos <= pre.list@.len(),
            forall|p: int| 0 <= p < pos ==> (pre.list@[p].key as int) < data_key_spec(key),
            pos < pre.list@.len() ==> pre.list@[pos as int].key as int >= data_key_spec(key),
            post.list@ == pre.list@.insert(
                pos,
                Node::<V> { key: (data_key_spec(key)) as u64, value: Some(value) },
            ),
            post.buckets == pre.buckets,
            post.size == pre.size,
        ensures
            parity_ok(post.list@),
            num_data(post.list@) == num_data(pre.list@) + 1,
            num_data(post.list@) < post.list@.len(),
            forall|b: nat|
                b < pow2(63) && #[trigger] post.buckets.slot_spec(b) is Some ==> {
                    &&& post.buckets.slot_spec(b).unwrap() as int == bucket_key_spec(b as u64)
                    &&& has_key(post.list@, post.buckets.slot_spec(b).unwrap())
                },
            forall|p2: int|
                0 <= p2 < post.list@.len() && (#[trigger] post.list@[p2].key) % 2 == 0
                    ==> exists|b2: u64|
                    b2 < post.size && post.list@[p2].key as int == #[trigger] bucket_key_spec(b2),
            post@ == pre@.insert(key, value),
    {
        lemma2_to64();
        lemma2_to64_rest();
        lemma_so_rev_even(key);
        lemma_so_rev_bound(key);
        let dk = (data_key_spec(key)) as u64;
        let node = Node::<V> { key: dk, value: Some(value) };
        if pos < pre.list@.len() && pre.list@[pos].key == dk {
            assert(has_key(pre.list@, dk));
        }
        lemma_lookup_insert(pre.list@, pos, node);
        lemma_num_data_insert(pre.list@, pos, node);
        pre.list@.insert_ensures(pos, node);
        // the tag discipline survives: the new node is an odd-keyed data
        // node with a payload
        assert forall|p: int|
            0 <= p < post.list@.len() implies ((#[trigger] post.list@[p].key % 2 == 1)
            <==> post.list@[p].value is Some) by {
            if p < pos {
                assert(post.list@[p] == pre.list@[p]);
            } else if p > pos {
                assert(post.list@[p] == pre.list@[p - 1]);
            }
        }
        // the sentinel of bucket 0 caps the data count below the length
        let k0 = pre.buckets.slot_spec(0).unwrap();
        lemma_rev_bits_zero(64);
        assert(has_key(post.list@, k0));
        lemma_num_data_lt_len(post.list@, index_of(post.list@, k0));
        // the directory invariant survives: sentinel keys are even, the new
        // data key is odd
        assert forall|b: nat|
            b < pow2(63) && #[trigger] post.buckets.slot_spec(b) is Some implies {
            &&& post.buckets.slot_spec(b).unwrap() as int == bucket_key_spec(b as u64)
            &&& has_key(post.list@, post.buckets.slot_spec(b).unwrap())
        } by {
            let kb = pre.buckets.slot_spec(b).unwrap();
            lemma_bucket_key_ne_data_key(b as u64, key);
            lemma_so_rev_even(b as u64);
            lemma_so_rev_bound(b as u64);
            assert(kb != dk);
            assert(has_key(post.list@, kb) == has_key(pre.list@, kb));
        }
        // every even key still names a bucket below the current size: the
        // new node's key is odd
        assert forall|p2: int|
            0 <= p2 < post.list@.len() && (#[trigger] post.list@[p2].key) % 2
                == 0 implies exists|b2: u64|
            b2 < post.size && post.list@[p2].key as int == #[trigger] bucket_key_spec(b2) by {
            let p0: int = if p2 < pos {
                p2
            } else {
                p2 - 1
            };
            assert(post.list@[p2] == pre.list@[p0]);
            assert(pre.list@[p0].key % 2 == 0);
            let b2 = choose|b2: u64|
                b2 < pre.size && pre.list@[p0].key as int == #[trigger] bucket_key_spec(b2);
            assert(b2 < post.size && post.list@[p2].key as int == bucket_key_spec(b2));
        }
        // the view gains exactly this one binding
        assert(post@ =~= pre@.insert(key, value)) by {
            assert forall|k2: u64|
                valid_key(k2) && k2 != key implies #[trigger] has_key(
                post.list@,
                (data_key_spec(k2)) as u64,
            ) == has_key(pre.list@, (data_key_spec(k2)) as u64) && value_at_key(
                post.list@,
                (data_key_spec(k2)) as u64,
            ) == value_at_key(pre.list@, (data_key_spec(k2)) as u64) by {
                lemma_so_rev_even(k2);
                lemma_so_rev_bound(k2);
                if (data_key_spec(k2)) as u64 == dk {
                    lemma_data_key_injective(k2, key);
                }
            }
            assert(has_key(post.list@, dk) && value_at_key(post.list@, dk) == Some(value));
        }
    }

    /// Inserts `key -> value` if the key is absent; hands the value back in
    /// `Err` if the key is already bound.  A successful insertion bumps
    /// `count` and, when the load factor is crossed, doubles `size` once.
    pub fn insert(&mut self, key: u64, value: V) -> (r: Result<(), V>)
        requires
            old(self).wf(),
            valid_key(key),
        ensures
            final(self).wf(),
            old(self)@.contains_key(key) ==> r == Err::<(), V>(value) && final(self)@ == old(
                self,
            )@ && final(self).count_spec() == old(self).count_spec() && final(self).size_spec()
                == old(self).size_spec(),
            !old(self)@.contains_key(key) ==> {
                &&& r == Ok::<(), V>(())
                &&& final(self)@ == old(self)@.insert(key, value)
                &&& final(self).count_spec() == old(self).count_spec() + 1
                &&& final(self).size_spec() as int == (if old(self).count_spec() as int + 1
                    > LOAD_FACTOR as int * old(self).size_spec() as int {
                    2 * old(self).size_spec() as int
                } else {
                    old(self).size_spec() as int
                })
            },
    {
        Self::assert_valid_key(key);
        let (found, pos) = self.find(key);
        if found {
            return Err(value);
        }
        let dk = Self::get_so_data_key(key);
        let ghost pre = *self;
        proof {
            lemma_so_rev_even(key);
            lemma_so_rev_bound(key);
            if pos < self.list@.len() && self.list@[pos as int].key == dk {
                assert(has_key(self.list@, dk));
                assert(pre@.contains_key(key));
            }
        }
        let node = Node { key: dk, value: Some(value) };
        self.list.insert_at(pos, node);
        // reading the length pins it (and so the new count) below usize::MAX
        let _list_len = self.list.len();
        proof {
            Self::lemma_insert_data_node(pre, *self, key, value, pos as int);
        }
        self.count = self.count + 1;
        let prev_count = self.count;
        let prev_size = self.size;
        proof {
            lemma2_to64();
            lemma2_to64_rest();
        }
        if let Some(threshold) = prev_size.checked_mul(LOAD_FACTOR) {
            if prev_count > threshold {
                // exactly one doubling per threshold crossing
                self.size = prev_size * 2;
                proof {
                    let j = pre.size_log();
                    lemma_pow2_unfold((j + 1) as nat);
                    if j + 1 > 63 {
                        lemma_pow2_strictly_increases(63, (j + 1) as nat);
                    }
                    assert(self.size == pow2((j + 1) as nat));
                    assert(1 <= j + 1 <= 63 && self.size == pow2((j + 1) as nat));
                }
            }
        } else {
            proof {
                // size * LOAD_FACTOR would overflow only at the largest
                // table, where the load threshold is beyond any count
                let j = pre.size_log();
                assert(prev_size == pow2(63)) by {
                    if j < 63 {
                        lemma_pow2_strictly_increases(j, 63);
                    }
                }
            }
        }
        Ok(())
    }

    /// Removes the binding for `key`, returning its value, or reports `Err`
    /// if the key is absent.  A successful removal decrements `count`.
    pub fn delete(&mut self, key: u64) -> (r: Result<V, ()>)
        requires
            old(self).wf(),
            valid_key(key),
        ensures
            final(self).wf(),
            final(self).size_spec() == old(self).size_spec(),
            old(self)@.contains_key(key) ==> r == Ok::<V, ()>(old(self)@[key]) && final(self)@
                == old(self)@.remove(key) && final(self).count_spec() == old(self).count_spec()
                - 1,
            !old(self)@.contains_key(key) ==> r == Err::<V, ()>(()) && final(self)@ == old(
                self,
            )@ && final(self).count_spec() == old(self).count_spec(),
    {
        Self::assert_valid_key(key);
        let (found, pos) = self.find(key);
        if !found {
            return Err(());
        }
        let ghost pre = *self;
        let ghost dk = (data_key_spec(key)) as u64;
        let node = self.list.remove_at(pos);
        proof {
            lemma2_to64();
            lemma2_to64_rest();
            lemma_so_rev_even(key);
            lemma_so_rev_bound(key);
            lemma_lookup_remove(pre.list@, pos as int);
            pre.list@.remove_ensures(pos as int);
            // the tag discipline survives a removal
            assert forall|p: int|
                0 <= p < self.list@.len() implies ((#[trigger] self.list@[p].key % 2 == 1)
                <==> self.list@[p].value is Some) by {
                if p < pos {
                    assert(self.list@[p] == pre.list@[p]);
                } else {
                    assert(self.list@[p] == pre.list@[p + 1]);
                }
            }
            // the directory invariant survives: no sentinel was removed
            assert forall|b: nat|
                b < pow2(63) && #[trigger] self.buckets.slot_spec(b) is Some implies {
                &&& self.buckets.slot_spec(b).unwrap() as int == bucket_key_spec(b as u64)
                &&& has_key(self.list@, self.buckets.slot_spec(b).unwrap())
            } by {
                let kb = pre.buckets.slot_spec(b).unwrap();
                lemma_bucket_key_ne_data_key(b as u64, key);
                lemma_so_rev_even(b as u64);
                lemma_so_rev_bound(b as u64);
                assert(kb != dk);
                assert(has_key(self.list@, kb) == has_key(pre.list@, kb));
            }
            // every even key still names a bucket below the current size
            assert forall|p2: int|
                0 <= p2 < self.list@.len() && (#[trigger] self.list@[p2].key) % 2
                    == 0 implies exists|b2: u64|
                b2 < self.size && self.list@[p2].key as int == #[trigger] bucket_key_spec(
                    b2,
                ) by {
                let p0: int = if p2 < pos {
                    p2
                } else {
                    p2 + 1
                };
                assert(self.list@[p2] == pre.list@[p0]);
                assert(pre.list@[p0].key % 2 == 0);
                let b2 = choose|b2: u64|
                    b2 < pre.size && pre.list@[p0].key as int == #[trigger] bucket_key_spec(b2);
                assert(b2 < self.size && self.list@[p2].key as int == bucket_key_spec(b2));
            }
            // the view loses exactly this one binding
            assert(self@ =~= pre@.remove(key)) by {
                assert forall|k2: u64|
                    valid_key(k2) && k2 != key implies #[trigger] has_key(
                    self.list@,
                    (data_key_spec(k2)) as u64,
                ) == has_key(pre.list@, (data_key_spec(k2)) as u64) && value_at_key(
                    self.list@,
                    (data_key_spec(k2)) as u64,
                ) == value_at_key(pre.list@, (data_key_spec(k2)) as u64) by {
                    lemma_so_rev_even(k2);
                    lemma_so_rev_bound(k2);
                    if (data_key_spec(k2)) as u64 == dk {
                        lemma_data_key_injective(k2, key);
                    }
                }
                assert(!has_key(self.list@, dk));
            }
        }
        self.count = self.count - 1;
        proof {
            assert(node.value is Some);
        }
        match node.value {
            Some(v) => Ok(v),
            None => Err(()),
        }
    }

    /// `count` says how many keys are live: once operations quiesce, it has
    /// converged to the number of keys a lookup would find.
    /// Materialized buckets are ancestor-closed: once a bucket's sentinel is
    /// published, so is the sentinel of every ancestor on its parent chain —
    /// each step clears the top set bit — all the way down to the
    /// pre-created buckets 0 and 1.  This is the guarantee the recursive
    /// construction maintains: no bucket ever exists before its ancestors.
    pub proof fn lemma_ancestor_chain_materialized(&self, b: nat, i: nat)
        requires
            self.wf(),
            self.bucket_materialized(b),
        ensures
            self.bucket_materialized(ancestor_bucket(b, i)),
            ancestor_bucket(b, i) >= 2 ==> ancestor_bucket(b, (i + 1) as nat) < ancestor_bucket(
                b,
                i,
            ),
        decreases i,
    {
        lemma2_to64();
        reveal(ancestors_closed);
        let a_i = ancestor_bucket(b, i);
        if a_i >= 2 {
            lemma_parent_bucket_lt(a_i);
            assert(ancestor_bucket(b, (i + 1) as nat) == parent_bucket_spec(a_i));
        }
        if i > 0 {
            self.lemma_ancestor_chain_materialized(b, (i - 1) as nat);
            let a = ancestor_bucket(b, (i - 1) as nat);
            if a < 2 {
                // the parent of buckets 0 and 1 is bucket 0, which is
                // always materialized
                assert(log2floor(0) == 0 && log2floor(1) == 0);
                assert(parent_bucket_spec(0) == 0 && parent_bucket_spec(1) == 0);
            }
        }
    }

    pub proof fn lemma_count_matches_live_keys(&self)
        requires
            self.wf(),
        ensures
            self@.dom().finite(),
            self.count_spec() as int == self@.dom().len(),
    {
        lemma_live_keys_count(self.list@);
        assert(self@.dom() =~= live_keys(self.list@));
    }

    /// The current number of buckets.
    pub fn current_size(&self) -> (r: u64)
        ensures
            r == self.size_spec(),
    {
        self.size
    }

    /// The current number of data entries.
    pub fn item_count(&self) -> (r: u64)
        ensures
            r == self.count_spec(),
    {
        self.count
    }

    /// Segments are contiguous: between a bucket's sentinel and the end of
    /// the bucket's aligned block of split-order keys, the shared list holds
    /// nothing but data entries of keys that hash to that bucket at the
    /// current size.
    pub proof fn lemma_segment_contiguous(&self, j: nat, b: u64, p: int, q: int)
        requires
            self.wf(),
            self.size_spec() == pow2(j),
            1 <= j <= 63,
            b < self.size_spec(),
            0 <= p < q < self.so_key_seq().len(),
            self.so_key_seq()[p] as int == bucket_key_spec(b),
            (self.so_key_seq()[q] as int) < bucket_key_spec(b) + pow2((64 - j) as nat),
        ensures
            self.so_key_seq()[q] % 2 == 1,
            exists|k: u64|
                valid_key(k) && #[trigger] data_key_spec(k) == self.so_key_seq()[q]
                    && k as int % pow2(j) as int == b,
    {
        lemma2_to64();
        lemma2_to64_rest();
        let kq = self.so_key_seq()[q];
        assert(self.list@[p].key < self.list@[q].key);
        assert(kq as int > bucket_key_spec(b));
        if kq % 2 == 0 {
            // an even key is the sentinel of some bucket below the current
            // size, but no other sentinel lands strictly inside this block
            assert(self.list@[q].key % 2 == 0);
            let b2 = choose|b2: u64|
                b2 < self.size && self.list@[q].key as int == #[trigger] bucket_key_spec(b2);
            lemma_bucket_segment(b2, b, j);
            assert(b2 as int % pow2(j) as int == b);
            lemma_small_mod(b2 as nat, pow2(j));
            assert(kq as int == bucket_key_spec(b));
            assert(false);
        }
        lemma_odd_key_has_source(kq);
        let k = (crate::so_key::rev_bits((kq - 1) as int, 64)) as u64;
        assert(data_key_spec(k) == kq);
        lemma_bucket_segment(k, b, j);
        assert(k as int % pow2(j) as int == b);
    }

    /// The split-ordering theorem behind resizing: at every power-of-two
    /// table size the map may ever reach, the sentinel of the bucket a key
    /// maps to sorts strictly before the key's own data node.  Growing the
    /// table therefore never moves an entry: new sentinels only subdivide an
    /// order that already holds.
    pub proof fn lemma_resize_never_moves_entries(key: u64, j: nat)
        requires
            valid_key(key),
            1 <= j <= 63,
        ensures
            ({
                let b = (key as int % pow2(j) as int) as u64;
                bucket_key_spec(b) % 2 == 0 && bucket_key_spec(b) < data_key_spec(key)
            }),
    {
        lemma_bucket_key_le_rev(key, j);
        lemma_pow2_pos(j);
        lemma_mod_division_less_than_divisor(key as int, pow2(j) as int);
        lemma2_to64();
        lemma2_to64_rest();
        let b = (key as int % pow2(j) as int) as u64;
        if j < 63 {
            lemma_pow2_strictly_increases(j, 63);
        }
        lemma_so_rev_even(b);
    }

    /// The debug traversal: every key in the shared list, bucket sentinels
    /// and data entries alike, in list order.
    pub fn split_order_keys(&self) -> (r: Vec<u64>)
        ensures
            r@ == self.so_key_seq(),
    {
        let n = self.list.len();
        let mut r: Vec<u64> = Vec::new();
        let mut i: usize = 0;
        while i < n
            invariant
                n == self.list@.len(),
                i <= n,
                r@.len() == i,
                forall|p: int| 0 <= p < i ==> r@[p] == self.list@[p].key,
            decreases n - i,
        {
            r.push(self.list.key_at(i));
            i = i + 1;
        }
        proof {
            assert(r@ =~= self.so_key_seq());
        }
        r
    }

    /// The split-order invariant: between operations the traversal of the
    /// shared list is strictly increasing by transformed key.
    pub proof fn lemma_traversal_strictly_increasing(&self)
        requires
            self.wf(),
        ensures
            forall|p: int, q: int|
                0 <= p < q < self.so_key_seq().len() ==> self.so_key_seq()[p]
                    < self.so_key_seq()[q],
    {
    }

    /// No split-order key is ever held by two nodes at once; in particular,
    /// materializing a bucket can never leave two sentinels with its key,
    /// however many times it is attempted.
    pub proof fn lemma_key_position_unique(&self, p: int, q: int)
        requires
            self.wf(),
            0 <= p < self.so_key_seq().len(),
            0 <= q < self.so_key_seq().len(),
            self.so_key_seq()[p] == self.so_key_seq()[q],
        ensures
            p == q,
    {
        if p < q {
            assert(self.list@[p].key < self.list@[q].key);
        }
        if q < p {
            assert(self.list@[q].key < self.list@[p].key);
        }
    }

    /// The bucket count is always a power of two, at least two: doubling can
    /// never leave it in between two powers.
    pub proof fn lemma_size_power_of_two(&self)
        requires
            self.wf(),
        ensures
            vstd::arithmetic::power2::is_pow2(self.size_spec() as int),
            2 <= self.size_spec(),
    {
        let j = self.size_log();
        vstd::arithmetic::power2::lemma_pow2(j);
        assert(vstd::arithmetic::power2::is_pow2_exists(self.size_spec() as int));
        vstd::arithmetic::power2::is_pow2_equiv(self.size_spec() as int);
    }

    /// Insertions under distinct keys commute at the view level: however two
    /// callers' insertions on disjoint keys interleave, the resulting map is
    /// the same, and neither update is lost.
    pub proof fn lemma_disjoint_inserts_commute(m: Map<u64, V>, k1: u64, v1: V, k2: u64, v2: V)
        requires
            k1 != k2,
        ensures
            m.insert(k1, v1).insert(k2, v2) == m.insert(k2, v2).insert(k1, v1),
            m.insert(k1, v1).insert(k2, v2).contains_key(k1),
            m.insert(k1, v1).insert(k2, v2)[k1] == v1,
            m.insert(k1, v1).insert(k2, v2)[k2] == v2,
    {
        assert(m.insert(k1, v1).insert(k2, v2) =~= m.insert(k2, v2).insert(k1, v1));
    }

    /// After a removal the key is unbound again, so `insert`'s contract owes
    /// success for it; while it stays bound, `insert`'s contract refuses it
    /// and `delete`'s owes the stored value.
    pub proof fn lemma_reinsertion_after_delete(m: Map<u64, V>, k: u64, v: V)
        ensures
            !m.remove(k).contains_key(k),
            m.insert(k, v).contains_key(k),
            m.insert(k, v)[k] == v,
            m.remove(k).insert(k, v) == m.insert(k, v),
    {
        assert(m.remove(k).insert(k, v) =~= m.insert(k, v));
    }

    /// Creates the map: two pre-materialized buckets, an empty view.
    pub fn new() -> (r: Self)
        ensures
            r.wf(),
            r@ == Map::<u64, V>::empty(),
            r.size_spec() == 2,
            r.count_spec() == 0,
    {
        proof {
            lemma2_to64();
            lemma2_to64_rest();
            lemma_rev_bits_zero(64);
            lemma_rev_bits_one(64);
        }
        let k1 = Self::get_so_bucket_key(1);
        let mut list = List::<V>::new();
        list.insert_at(0, Node { key: 0, value: None });
        list.insert_at(1, Node { key: k1, value: None });
        let mut buckets = GrowableArray::<u64>::new();
        buckets.set_slot(0, 0);
        buckets.set_slot(1, k1);
        let r = SplitOrderedList { list, buckets, size: 2, count: 0 };
        proof {
            let s = r.list@;
            assert(s.len() == 2 && s[0].key == 0 && s[1].key == k1);
            assert(num_data(s) == 0) by {
                assert(s.drop_last().drop_last() =~= Seq::<Node<V>>::empty());
                assert(num_data(s) == num_data(s.drop_last()) + 0);
                assert(num_data(s.drop_last()) == num_data(s.drop_last().drop_last()) + 0);
            }
            assert(r.wf()) by {
                assert(bucket_key_spec(0) == 0);
                assert(bucket_key_spec(1) == pow2(63));
                assert(1 <= 1nat <= 63 && r.size == pow2(1));
                assert(2 <= usize::MAX);
                assert forall|p2: int|
                    0 <= p2 < s.len() && (#[trigger] s[p2].key) % 2 == 0 implies exists|b2: u64|
                    b2 < r.size && s[p2].key as int == #[trigger] bucket_key_spec(b2) by {
                    if p2 == 0 {
                        assert(0u64 < r.size && s[p2].key as int == bucket_key_spec(0));
                    } else {
                        assert(1u64 < r.size && s[p2].key as int == bucket_key_spec(1));
                    }
                }
                assert(ancestors_closed(r.buckets)) by {
                    reveal(ancestors_closed);
                    assert forall|b2: nat| 2 <= b2 implies r.buckets.slot_spec(b2) is None by {
                    }
                }
            }
            assert(r@ =~= Map::<u64, V>::empty()) by {
                assert forall|k: u64| !(valid_key(k) && has_key(s, (data_key_spec(k)) as u64)) by {
                    if valid_key(k) {
                        lemma_so_rev_even(k);
                        lemma_so_rev_bound(k);
                        let dk = (data_key_spec(k)) as u64;
                        assert(dk % 2 == 1);
                    }
                }
            }
        }
        r
    }
}

impl<V> Default for SplitOrderedList<V> {
    /// Same as `new`.
    fn default() -> (r: Self)
        ensures
            r.wf(),
            r@ == Map::<u64, V>::empty(),
            r.size_spec() == 2,
            r.count_spec() == 0,
    {
        Self::new()
    }
}

} // verus!

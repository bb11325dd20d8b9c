//! A sorted set of integers with cursor-based positioning, the interface of
//! a lock-coupling sorted linked list over a sorted backing store.

use vstd::prelude::*;

verus! {

/// Where a positioning walk ended up.
enum CursorState {
    Insert,
    Found,
    Searching,
}

/// A positioned cursor: the slot a walk stopped at, and why it stopped.
struct Cursor {
    state: CursorState,
    pos: usize,
}

impl Cursor {
    /// A cursor still searching, at `pos`.
    fn new(pos: usize) -> (r: Cursor)
        ensures
            r.state is Searching,
            r.pos == pos,
    {
        Cursor { state: CursorState::Searching, pos }
    }

    /// A cursor that found its key at `pos`.
    fn found(pos: usize) -> (r: Cursor)
        ensures
            r.state is Found,
            r.pos == pos,
    {
        Cursor { state: CursorState::Found, pos }
    }

    /// A cursor ready to insert before `pos`.
    fn inserting(pos: usize) -> (r: Cursor)
        ensures
            r.state is Insert,
            r.pos == pos,
    {
        Cursor { state: CursorState::Insert, pos }
    }
}

/// A sorted singly-linked-list set, here over a sorted vector.
#[derive(Debug)]
pub struct OrderedListSet {
    data: Vec<u64>,
}

impl View for OrderedListSet {
    type V = Set<u64>;

    /// The set of elements held.
    closed spec fn view(&self) -> Set<u64> {
        Set::new(|k: u64| self.data@.contains(k))
    }
}

impl OrderedListSet {
    /// The elements in ascending order.
    pub closed spec fn elements(&self) -> Seq<u64> {
        self.data@
    }

    /// Elements strictly increase: each is held once, in order.
    pub closed spec fn wf(&self) -> bool {
        forall|p: int, q: int| 0 <= p < q < self.data@.len() ==> self.data@[p] < self.data@[q]
    }

    /// Creates an empty set.
    pub fn new() -> (r: Self)
        ensures
            r.wf(),
            r@ == Set::<u64>::empty(),
    {
        let r = OrderedListSet { data: Vec::new() };
        proof {
            assert(r@ =~= Set::<u64>::empty());
        }
        r
    }

    /// Walks to the sorted position of `key`.
    fn find(&self, key: u64) -> (c: Cursor)
        requires
            self.wf(),
        ensures
            c.pos <= self.data@.len(),
            forall|p: int| 0 <= p < c.pos ==> self.data@[p] < key,
            c.pos < self.data@.len() ==> self.data@[c.pos as int] >= key,
            (c.state is Found) == self@.contains(key),
            c.state is Found ==> c.pos < self.data@.len() && self.data@[c.pos as int] == key,
            !(c.state is Searching),
    {
        let n = self.data.len();
        let mut cursor = Cursor::new(0);
        loop
            invariant_except_break
                cursor.state is Searching,
            invariant
                self.wf(),
                n == self.data@.len(),
                cursor.pos <= n,
                forall|p: int| 0 <= p < cursor.pos ==> self.data@[p] < key,
            ensures
                cursor.pos <= n,
                forall|p: int| 0 <= p < cursor.pos ==> self.data@[p] < key,
                cursor.pos < n ==> self.data@[cursor.pos as int] >= key,
                (cursor.state is Found) == (cursor.pos < n && self.data@[cursor.pos as int]
                    == key),
                !(cursor.state is Searching),
            decreases n - cursor.pos,
        {
            if cursor.pos >= n {
                cursor = Cursor::inserting(cursor.pos);
                break ;
            }
            let x = self.data[cursor.pos];
            if x > key {
                cursor = Cursor::inserting(cursor.pos);
                break ;
            } else if x == key {
                cursor = Cursor::found(cursor.pos);
                break ;
            }
            cursor = Cursor::new(cursor.pos + 1);
        }
        proof {
            if cursor.state is Found {
                assert(self.data@.contains(key));
            }
            if self.data@.contains(key) {
                let w = choose|w: int| 0 <= w < self.data@.len() && self.data@[w] == key;
                if w < cursor.pos {
                } else if cursor.pos < self.data@.len() && w > cursor.pos {
                    assert(self.data@[cursor.pos as int] < self.data@[w]);
                }
                assert(cursor.state is Found);
            }
        }
        cursor
    }

    /// Returns `true` if the set contains the key.
    pub fn contains(&self, key: u64) -> (r: bool)
        requires
            self.wf(),
        ensures
            r == self@.contains(key),
    {
        match self.find(key).state {
            CursorState::Found => true,
            _ => false,
        }
    }

    /// Inserts a key into the set; a key already present comes back in
    /// `Err`, and the set is unchanged.
    pub fn insert(&mut self, key: u64) -> (r: Result<(), u64>)
        requires
            old(self).wf(),
        ensures
            final(self).wf(),
            old(self)@.contains(key) ==> r == Err::<(), u64>(key) && final(self)@ == old(self)@,
            !old(self)@.contains(key) ==> r == Ok::<(), u64>(()) && final(self)@ == old(
                self,
            )@.insert(key),
    {
        let cursor = self.find(key);
        match cursor.state {
            CursorState::Found => Err(key),
            _ => {
                let ghost pre = self.data@;
                self.data.insert(cursor.pos, key);
                proof {
                    pre.insert_ensures(cursor.pos as int, key);
                    assert forall|p: int, q: int|
                        0 <= p < q < self.data@.len() implies self.data@[p] < self.data@[q] by {
                        if p < cursor.pos {
                            assert(self.data@[p] == pre[p]);
                        } else if p > cursor.pos {
                            assert(self.data@[p] == pre[p - 1]);
                        }
                        if q < cursor.pos {
                            assert(self.data@[q] == pre[q]);
                        } else if q > cursor.pos {
                            assert(self.data@[q] == pre[q - 1]);
                        }
                    }
                    assert(final(self)@ =~= old(self)@.insert(key)) by {
                        assert(self.data@[cursor.pos as int] == key);
                        assert forall|x: u64| x != key implies self.data@.contains(x) == pre.contains(
                            x,
                        ) by {
                            if pre.contains(x) {
                                let w = choose|w: int| 0 <= w < pre.len() && pre[w] == x;
                                if w < cursor.pos {
                                    assert(self.data@[w] == x);
                                } else {
                                    assert(self.data@[w + 1] == x);
                                }
                            }
                            if self.data@.contains(x) {
                                let w = choose|w: int|
                                    0 <= w < self.data@.len() && self.data@[w] == x;
                                if w < cursor.pos {
                                    assert(pre[w] == x);
                                } else if w > cursor.pos {
                                    assert(pre[w - 1] == x);
                                }
                            }
                        }
                    }
                }
                Ok(())
            },
        }
    }

    /// Removes a key from the set and returns it; an absent key is reported
    /// with `Err`, and the set is unchanged.
    pub fn remove(&mut self, key: u64) -> (r: Result<u64, ()>)
        requires
            old(self).wf(),
        ensures
            final(self).wf(),
            old(self)@.contains(key) ==> r == Ok::<u64, ()>(key) && final(self)@ == old(
                self,
            )@.remove(key),
            !old(self)@.contains(key) ==> r == Err::<u64, ()>(()) && final(self)@ == old(self)@,
    {
        let cursor = self.find(key);
        match cursor.state {
            CursorState::Found => {
                let ghost pre = self.data@;
                self.data.remove(cursor.pos);
                proof {
                    pre.remove_ensures(cursor.pos as int);
                    assert forall|p: int, q: int|
                        0 <= p < q < self.data@.len() implies self.data@[p] < self.data@[q] by {
                        if p < cursor.pos {
                            assert(self.data@[p] == pre[p]);
                        } else {
                            assert(self.data@[p] == pre[p + 1]);
                        }
                        if q < cursor.pos {
                            assert(self.data@[q] == pre[q]);
                        } else {
                            assert(self.data@[q] == pre[q + 1]);
                        }
                    }
                    assert(final(self)@ =~= old(self)@.remove(key)) by {
                        assert forall|x: u64| x != key implies self.data@.contains(x) == pre.contains(
                            x,
                        ) by {
                            if pre.contains(x) {
                                let w = choose|w: int| 0 <= w < pre.len() && pre[w] == x;
                                if w < cursor.pos {
                                    assert(self.data@[w] == x);
                                } else if w > cursor.pos {
                                    assert(self.data@[w - 1] == x);
                                }
                            }
                            if self.data@.contains(x) {
                                let w = choose|w: int|
                                    0 <= w < self.data@.len() && self.data@[w] == x;
                                if w < cursor.pos {
                                    assert(pre[w] == x);
                                } else {
                                    assert(pre[w + 1] == x);
                                }
                            }
                        }
                        assert(!self.data@.contains(key)) by {
                            if self.data@.contains(key) {
                                let w = choose|w: int|
                                    0 <= w < self.data@.len() && self.data@[w] == key;
                                if w < cursor.pos {
                                } else {
                                    assert(pre[w + 1] == key);
                                    assert(pre[cursor.pos as int] < pre[w + 1]);
                                }
                            }
                        }
                    }
                }
                Ok(key)
            },
            _ => Err(()),
        }
    }

    /// An iterator visiting all elements in ascending order, over a snapshot
    /// of the set.
    pub fn iter(&self) -> (it: Iter)
        requires
            self.wf(),
        ensures
            it.items() == self.elements(),
            it.position() == 0,
            forall|p: int, q: int| 0 <= p < q < it.items().len() ==> it.items()[p] < it.items()[q],
            forall|p: int| 0 <= p < it.items().len() ==> self@.contains(#[trigger] it.items()[p]),
            forall|x: u64| self@.contains(x) ==> it.items().contains(x),
    {
        let n = self.data.len();
        let mut items: Vec<u64> = Vec::new();
        let mut i: usize = 0;
        while i < n
            invariant
                n == self.data@.len(),
                i <= n,
                items@.len() == i,
                forall|p: int| 0 <= p < i ==> items@[p] == self.data@[p],
            decreases n - i,
        {
            items.push(self.data[i]);
            i = i + 1;
        }
        proof {
            assert(items@ =~= self.data@);
        }
        Iter { items, pos: 0 }
    }
}

impl Default for OrderedListSet {
    /// Same as `new`.
    fn default() -> (r: Self)
        ensures
            r.wf(),
            r@ == Set::<u64>::empty(),
    {
        Self::new()
    }
}

/// A snapshot iterator over an `OrderedListSet`, yielding elements in
/// ascending order.
#[derive(Debug)]
pub struct Iter {
    items: Vec<u64>,
    pos: usize,
}

impl Iter {
    /// The snapshot being walked.
    pub closed spec fn items(&self) -> Seq<u64> {
        self.items@
    }

    /// How many elements were already yielded.
    pub closed spec fn position(&self) -> int {
        self.pos as int
    }

    /// The next element in ascending order, or `None` at the end.
    pub fn next(&mut self) -> (r: Option<u64>)
        ensures
            final(self).items() == old(self).items(),
            old(self).position() < old(self).items().len() ==> r == Some(
                old(self).items()[old(self).position()],
            ) && final(self).position() == old(self).position() + 1,
            old(self).position() >= old(self).items().len() ==> r == None::<u64>
                && final(self).position() == old(self).position(),
    {
        if self.pos < self.items.len() {
            let x = self.items[self.pos];
            self.pos = self.pos + 1;
            Some(x)
        } else {
            None
        }
    }
}

} // verus!

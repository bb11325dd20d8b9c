//! A lazily expanding directory: a fixed first-level array of 64 segments,
//! where segment `s` (allocated only on first write) holds `2^s` slots, so
//! every index up to the platform's width is addressable without moving any
//! slot that already exists.

use vstd::prelude::*;

verus! {

use vstd::arithmetic::div_mod::{lemma_div_nonincreasing, lemma_fundamental_div_mod};
use vstd::arithmetic::power2::{
    lemma2_to64, lemma_pow2_pos, lemma_pow2_strictly_increases, lemma_pow2_unfold, pow2,
};

/// Index `i` lives in segment `seg_of(i)`: segment `s` covers the indexes
/// `2^s - 1 .. 2^(s+1) - 1`.
pub open spec fn seg_of(i: nat) -> nat
    decreases i,
{
    if i == 0 {
        0
    } else {
        1 + seg_of(((i - 1) / 2) as nat)
    }
}

/// The covering property of `seg_of`.
pub proof fn lemma_seg_of_bounds(i: nat)
    ensures
        pow2(seg_of(i)) <= i + 1 < pow2((seg_of(i) + 1) as nat),
    decreases i,
{
    if i == 0 {
        lemma2_to64();
    } else {
        let h = ((i - 1) / 2) as nat;
        lemma_seg_of_bounds(h);
        let s = seg_of(h);
        lemma_fundamental_div_mod(i - 1, 2);
        lemma_pow2_unfold((s + 1) as nat);
        lemma_pow2_unfold((s + 2) as nat);
    }
}

/// Indexes below `usize::MAX` always land in one of the 64 segments.
pub proof fn lemma_seg_of_small(i: nat)
    requires
        i + 1 < pow2(64),
    ensures
        seg_of(i) <= 63,
{
    lemma_seg_of_bounds(i);
    if seg_of(i) > 63 {
        lemma_pow2_strictly_increases(64, seg_of(i));
        lemma2_to64();
    }
}

/// A growable array of optional slots; `None` stands for a slot that was
/// never written (a null directory pointer).
#[derive(Debug)]
pub struct GrowableArray<T> {
    segments: Vec<Vec<Option<T>>>,
}

impl<T: Copy> GrowableArray<T> {
    /// Structural invariant: 64 fixed segment headers; an allocated segment
    /// `s` holds exactly `2^s` slots, an unallocated one is empty.
    pub closed spec fn wf(self) -> bool {
        &&& self.segments@.len() == 64
        &&& forall|s: int|
            0 <= s < 64 ==> (#[trigger] self.segments@[s]@.len() == 0 || self.segments@[s]@.len()
                == pow2(s as nat))
    }

    /// The value stored at index `i`, `None` while the slot (or its whole
    /// segment) was never written.
    pub closed spec fn slot_spec(self, i: nat) -> Option<T> {
        let s = seg_of(i);
        if s < 64 && self.segments@[s as int]@.len() != 0 {
            self.segments@[s as int]@[i + 1 - pow2(s)]
        } else {
            None
        }
    }

    /// Creates the directory with all segments unallocated.
    pub fn new() -> (r: Self)
        ensures
            r.wf(),
            forall|i: nat| r.slot_spec(i) is None,
    {
        let mut segments: Vec<Vec<Option<T>>> = Vec::new();
        let mut c: usize = 0;
        while c < 64
            invariant
                c <= 64,
                segments@.len() == c,
                forall|s: int| 0 <= s < c ==> #[trigger] segments@[s]@.len() == 0,
            decreases 64 - c,
        {
            segments.push(Vec::new());
            c = c + 1;
        }
        GrowableArray { segments }
    }

    /// Finds the segment, the offset inside it, and the segment's capacity
    /// for index `i`.
    fn locate(i: usize) -> (r: (usize, usize, usize))
        requires
            i < usize::MAX,
        ensures
            r.0 as nat == seg_of(i as nat),
            r.0 <= 63,
            r.2 as nat == pow2(r.0 as nat),
            r.1 as int == i + 1 - pow2(r.0 as nat),
            r.1 < r.2,
    {
        proof {
            lemma_seg_of_bounds(i as nat);
            lemma2_to64();
            assert(usize::MAX as int + 1 <= pow2(64)) by {
                lemma2_to64();
            }
            lemma_seg_of_small(i as nat);
        }
        let mut s: usize = 0;
        let mut j: usize = i;
        while j > 0
            invariant
                seg_of(i as nat) == s as nat + seg_of(j as nat),
                s as nat <= seg_of(i as nat),
                seg_of(i as nat) <= 63,
            decreases j,
        {
            proof {
                assert(seg_of(j as nat) == 1 + seg_of(((j - 1) / 2) as nat));
                lemma_div_nonincreasing(j - 1, 2);
            }
            j = (j - 1) / 2;
            s = s + 1;
        }
        let ghost sg = seg_of(i as nat);
        assert(s as nat == sg);
        let mut base: usize = 1;
        let mut t: usize = 0;
        proof {
            lemma2_to64();
        }
        while t < s
            invariant
                t <= s,
                s as nat == sg,
                base as nat == pow2(t as nat),
                pow2(sg) <= i + 1,
                sg == seg_of(i as nat),
                i < usize::MAX,
            decreases s - t,
        {
            proof {
                lemma_pow2_unfold((t + 1) as nat);
                if ((t + 1) as nat) < sg {
                    lemma_pow2_strictly_increases((t + 1) as nat, sg);
                }
            }
            base = base * 2;
            t = t + 1;
        }
        proof {
            lemma_seg_of_bounds(i as nat);
            lemma_pow2_unfold((sg + 1) as nat);
        }
        (s, i + 1 - base, base)
    }

    /// Reads the slot for index `i`; an absent segment reads as `None`.
    pub fn get_slot(&self, i: usize) -> (r: Option<T>)
        requires
            self.wf(),
            i < usize::MAX,
        ensures
            r == self.slot_spec(i as nat),
    {
        let (s, off, _cap) = Self::locate(i);
        let seg = &self.segments[s];
        if seg.len() == 0 {
            None
        } else {
            seg[off]
        }
    }

    /// Writes the slot for index `i`, allocating the missing segment on
    /// demand; every other slot keeps its value.
    pub fn set_slot(&mut self, i: usize, v: T)
        requires
            old(self).wf(),
            i < usize::MAX,
        ensures
            final(self).wf(),
            final(self).slot_spec(i as nat) == Some(v),
            forall|k: nat| k != i as nat ==> final(self).slot_spec(k) == old(self).slot_spec(k),
    {
        let (s, off, cap) = Self::locate(i);
        if self.segments[s].len() == 0 {
            let mut seg: Vec<Option<T>> = Vec::new();
            let mut c: usize = 0;
            while c < cap
                invariant
                    c <= cap,
                    seg@.len() == c,
                    forall|p: int| 0 <= p < c ==> seg@[p] is None,
                decreases cap - c,
            {
                seg.push(None);
                c = c + 1;
            }
            self.segments.set(s, seg);
        }
        let ghost mid = *self;
        let seg = &mut self.segments[s];
        seg.set(off, Some(v));
        proof {
            assert(self.segments@.len() == 64);
            assert(self.segments@[s as int]@ == mid.segments@[s as int]@.update(
                off as int,
                Some(v),
            ));
            assert forall|k: nat| k != i as nat implies self.slot_spec(k) == old(
                self,
            ).slot_spec(k) by {
                let sk = seg_of(k);
                let si = seg_of(i as nat);
                if sk < 64 {
                    if sk == si {
                        lemma_seg_of_bounds(k);
                        lemma_seg_of_bounds(i as nat);
                        lemma_pow2_pos(si);
                        lemma_pow2_unfold((si + 1) as nat);
                        assert(self.segments@[si as int]@.len() == pow2(si));
                        let ok = k + 1 - pow2(si);
                        assert(ok != off);
                        assert(self.segments@[si as int]@[ok] == mid.segments@[si as int]@[ok]);
                        if old(self).segments@[si as int]@.len() == 0 {
                            assert(old(self).slot_spec(k) is None);
                            assert(mid.segments@[si as int]@[ok] is None);
                        } else {
                            assert(mid.segments@[si as int] == old(self).segments@[si as int]);
                        }
                    } else {
                        assert(self.segments@[sk as int] == old(self).segments@[sk as int]);
                    }
                }
            }
        }
    }
}

} // verus!

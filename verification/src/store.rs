//! The typed result store: one ordered sequence of entries per value
//! type, with append, clear, whole-store take, and per-type access. The
//! scan, filter and refresh passes over it live in `passes`; the merged
//! address-ordered iteration lives in `rows`.

use vstd::prelude::*;

use crate::codec::{decode_le, le_val, lemma_le_val_bound, pow256};
use crate::tag::{spec_tag_of_rank, Datatype};

verus! {

/// One result: an address in the target process together with the value
/// read there most recently (`value`) and the one read by the pass
/// before (`old_value`). Values are the raw little-endian integers of
/// the entry's type width; float values are carried as their bit
/// patterns.
#[derive(Clone, Copy, PartialEq, Eq, Structural, Debug)]
pub struct Location {
    pub address: u64,
    pub value: u128,
    pub old_value: u128,
}

/// Well-formedness of one type's sequence for width `w`: values fit the
/// width, and addresses strictly ascend (so no address repeats within a
/// type).
pub open spec fn lane_wf(s: Seq<Location>, w: nat) -> bool {
    &&& forall|i: int|
        0 <= i < s.len() ==> (#[trigger] s[i]).value < pow256(w) && s[i].old_value < pow256(w)
    &&& forall|i: int, j: int| 0 <= i < j < s.len() ==> s[i].address < s[j].address
}

/// The typed result store: a sequence of entries for each of the twelve
/// value types, indexed by the type's rank in the canonical tie-break
/// order.
pub struct Memory {
    pub(crate) lanes: Vec<Vec<Location>>,
}

impl Memory {
    /// The entry sequence of the type whose rank is `r`.
    pub closed spec fn spec_lane(self, r: int) -> Seq<Location> {
        self.lanes@[r]@
    }

    /// The entry sequence of type `t`.
    pub open spec fn lane_for(self, t: Datatype) -> Seq<Location> {
        self.spec_lane(t.spec_rank() as int)
    }

    /// The number of per-type sequences the store holds.
    pub closed spec fn spec_num_lanes(self) -> nat {
        self.lanes@.len()
    }

    /// Well-formedness of the store: twelve sequences, each well-formed
    /// at its type's width.
    pub open spec fn inv(self) -> bool {
        &&& self.spec_num_lanes() == 12
        &&& forall|r: int|
            0 <= r < 12 ==> lane_wf(
                #[trigger] self.spec_lane(r),
                spec_tag_of_rank(r as usize).spec_width() as nat,
            )
    }

    /// Total number of entries in the sequences of the first `k` ranks.
    pub open spec fn spec_len_prefix(self, k: int) -> nat
        decreases k,
    {
        if k <= 0 {
            0
        } else {
            self.spec_len_prefix(k - 1) + self.spec_lane(k - 1).len()
        }
    }

    /// Total number of entries across all twelve sequences.
    pub open spec fn spec_len(self) -> nat {
        self.spec_len_prefix(12)
    }

    /// All sequences are empty.
    pub open spec fn is_empty(self) -> bool {
        forall|r: int| 0 <= r < 12 ==> (#[trigger] self.spec_lane(r)).len() == 0
    }

    /// Bridges the store's abstract sequences to its representation,
    /// for the passes defined in sibling modules.
    pub(crate) proof fn lemma_repr(self)
        ensures
            self.spec_num_lanes() == self.lanes@.len(),
            forall|r: int|
                0 <= r < self.lanes@.len() ==> self.spec_lane(r) == (#[trigger] self.lanes@[r])@,
    {
    }

    /// A new, empty store.
    pub fn new() -> (m: Memory)
        ensures
            m.inv(),
            m.is_empty(),
    {
        let mut lanes: Vec<Vec<Location>> = Vec::new();
        let mut r: usize = 0;
        while r < 12
            invariant
                r <= 12,
                lanes@.len() == r,
                forall|i: int| 0 <= i < r ==> (#[trigger] lanes@[i])@.len() == 0,
            decreases 12 - r,
        {
            lanes.push(Vec::new());
            r = r + 1;
        }
        let m = Memory { lanes };
        proof {
            assert forall|i: int| 0 <= i < 12 implies (#[trigger] m.spec_lane(i)).len() == 0 by {}
        }
        m
    }

    /// Drops every entry of every type.
    pub fn clear(&mut self)
        ensures
            final(self).inv(),
            final(self).is_empty(),
    {
        *self = Memory::new();
    }

    /// Moves the whole contents out, leaving the store empty.
    pub fn take(&mut self) -> (m: Memory)
        ensures
            m == *old(self),
            final(self).inv(),
            final(self).is_empty(),
    {
        let mut out = Memory::new();
        core::mem::swap(self, &mut out);
        out
    }

    /// Total entry count: the sum of the twelve per-type sequence
    /// lengths.
    pub fn len(&self) -> (n: usize)
        requires
            self.inv(),
            self.spec_len() <= usize::MAX,
        ensures
            n == self.spec_len(),
    {
        let mut n: usize = 0;
        let mut r: usize = 0;
        while r < 12
            invariant
                r <= 12,
                self.inv(),
                self.spec_len() <= usize::MAX,
                n == self.spec_len_prefix(r as int),
            decreases 12 - r,
        {
            proof {
                self.lemma_len_prefix_le(r as int + 1, 12);
            }
            n = n + self.lanes[r].len();
            r = r + 1;
        }
        n
    }

    /// Prefix sums of the per-type lengths are monotone.
    proof fn lemma_len_prefix_le(self, a: int, b: int)
        requires
            a <= b,
        ensures
            self.spec_len_prefix(a) <= self.spec_len_prefix(b),
        decreases b - a,
    {
        if a < b {
            self.lemma_len_prefix_le(a, b - 1);
        }
    }

    /// Decodes `target_bytes` as a value of `target_type` and appends an
    /// entry for it at `address`, with `old_value` equal to the value.
    /// The caller hands bytes of exactly the type's width and an address
    /// beyond every entry the type already has, as the ascending scan
    /// does.
    pub fn push(&mut self, address: u64, target_type: Datatype, target_bytes: &[u8])
        requires
            old(self).inv(),
            target_bytes@.len() == target_type.spec_width(),
            forall|i: int|
                0 <= i < old(self).lane_for(target_type).len() ==> (#[trigger] old(
                    self,
                ).lane_for(target_type)[i]).address < address,
        ensures
            final(self).inv(),
            final(self).lane_for(target_type) == old(self).lane_for(target_type).push(
                Location {
                    address,
                    value: le_val(target_bytes@) as u128,
                    old_value: le_val(target_bytes@) as u128,
                },
            ),
            forall|r: int|
                0 <= r < 12 && r != target_type.spec_rank() ==> final(self).spec_lane(r) == old(
                    self,
                ).spec_lane(r),
    {
        let r = target_type.rank();
        let value = decode_le(target_bytes);
        proof {
            lemma_le_val_bound(target_bytes@);
        }
        let loc = Location { address, value, old_value: value };
        self.lanes[r].push(loc);
        proof {
            let rk = target_type.spec_rank() as int;
            let w = target_type.spec_width() as nat;
            let oldlane = old(self).spec_lane(rk);
            assert(self.spec_lane(rk) =~= oldlane.push(loc));
            assert forall|q: int|
                0 <= q < 12 implies lane_wf(
                #[trigger] self.spec_lane(q),
                spec_tag_of_rank(q as usize).spec_width() as nat,
            ) by {
                if q != rk {
                    assert(self.spec_lane(q) == old(self).spec_lane(q));
                } else {
                    crate::tag::lemma_tag_of_rank_of_tag(target_type);
                    let s = self.spec_lane(rk);
                    assert forall|i: int, j: int|
                        0 <= i < j < s.len() implies s[i].address < s[j].address by {
                        if j < oldlane.len() {
                            assert(oldlane[i].address < oldlane[j].address);
                        } else {
                            assert(s[j] == loc);
                            assert(old(self).lane_for(target_type)[i].address < address);
                        }
                    }
                }
            }
        }
    }

    /// The addresses of type `t`'s entries, in store order.
    pub fn addresses(&self, t: Datatype) -> (out: Vec<u64>)
        requires
            self.inv(),
        ensures
            out@.len() == self.lane_for(t).len(),
            forall|i: int| 0 <= i < out@.len() ==> out@[i] == self.lane_for(t)[i].address,
    {
        let r = t.rank();
        let lane = &self.lanes[r];
        let n = lane.len();
        let mut out: Vec<u64> = Vec::new();
        let mut i: usize = 0;
        while i < n
            invariant
                i <= n,
                n == self.lane_for(t).len(),
                lane@ == self.lane_for(t),
                out@.len() == i,
                forall|k: int| 0 <= k < i ==> out@[k] == self.lane_for(t)[k].address,
            decreases n - i,
        {
            out.push(lane[i].address);
            i = i + 1;
        }
        out
    }
}

} // verus!

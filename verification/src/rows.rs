//! The merged result surface: the twelve per-type sequences streamed
//! as one sequence in ascending address order, ties broken by the
//! canonical type order. A linear min-scan over twelve cursors does
//! the merge; an iterator walks the merged rows.

use vstd::prelude::*;

use crate::store::{Location, Memory};
use crate::tag::{spec_tag_of_rank, Datatype};

verus! {

/// One merged result row: an entry together with its type.
#[derive(Clone, Copy, PartialEq, Eq, Structural, Debug)]
pub struct Row {
    pub address: u64,
    pub tag: Datatype,
    pub value: u128,
    pub old_value: u128,
}

/// The row presenting entry `l` of type `t`.
pub open spec fn row_of(l: Location, t: Datatype) -> Row {
    Row { address: l.address, tag: t, value: l.value, old_value: l.old_value }
}

/// One whole type sequence as rows.
pub open spec fn rows_of_lane(lane: Seq<Location>, t: Datatype) -> Seq<Row> {
    lane.map_values(|l: Location| row_of(l, t))
}

/// The predicate selecting the rows of type `t`.
pub open spec fn tag_pred(t: Datatype) -> spec_fn(Row) -> bool {
    |x: Row| x.tag == t
}

/// Merge order, non-strict: ascending address, ties broken by the
/// canonical type order.
pub open spec fn row_le(a: Row, b: Row) -> bool {
    a.address < b.address || (a.address == b.address && a.tag.spec_rank() <= b.tag.spec_rank())
}

/// Merge order, strict.
pub open spec fn row_lt(a: Row, b: Row) -> bool {
    a.address < b.address || (a.address == b.address && a.tag.spec_rank() < b.tag.spec_rank())
}

/// The rows are sorted in merge order.
pub open spec fn sorted_rows(s: Seq<Row>) -> bool {
    forall|i: int, j: int| 0 <= i < j < s.len() ==> row_le(s[i], s[j])
}

/// The sum of the first `k` cursor positions.
pub open spec fn cursor_sum(cs: Seq<usize>, k: int) -> nat
    decreases k,
{
    if k <= 0 {
        0
    } else {
        (cursor_sum(cs, k - 1) + cs[k - 1]) as nat
    }
}

/// Appending to a sequence extends its filtered image by the new
/// element exactly when the predicate accepts it.
proof fn lemma_filter_push(s: Seq<Row>, pred: spec_fn(Row) -> bool, x: Row)
    ensures
        s.push(x).filter(pred) == if pred(x) {
            s.filter(pred).push(x)
        } else {
            s.filter(pred)
        },
{
    reveal(Seq::filter);
    assert(s.push(x).drop_last() =~= s);
    assert(s.push(x).last() == x);
}

/// Bumping one cursor raises the sum of all twelve by one.
proof fn lemma_cursor_sum_update(cs: Seq<usize>, r: int, k: int)
    requires
        0 <= r < cs.len(),
        k <= cs.len(),
        cs[r] < usize::MAX,
    ensures
        cursor_sum(cs.update(r, (cs[r] + 1) as usize), k) == if r < k {
            cursor_sum(cs, k) + 1
        } else {
            cursor_sum(cs, k)
        },
    decreases k,
{
    if k > 0 {
        lemma_cursor_sum_update(cs, r, k - 1);
    }
}

/// When every cursor stands at its sequence's end, the cursor sum is
/// the store's total length.
proof fn lemma_cursor_sum_full(m: Memory, cs: Seq<usize>, k: int)
    requires
        cs.len() == 12,
        k <= 12,
        forall|r: int| 0 <= r < 12 ==> cs[r] == (#[trigger] m.spec_lane(r)).len(),
    ensures
        cursor_sum(cs, k) == m.spec_len_prefix(k),
    decreases k,
{
    if k > 0 {
        lemma_cursor_sum_full(m, cs, k - 1);
    }
}

impl Memory {
    /// The twelve type sequences merged into one, in ascending address
    /// order with ties broken by the canonical type order. Every entry
    /// appears exactly once: the rows of each type are exactly its
    /// sequence, in its order.
    pub fn merged_rows(&self) -> (rows: Vec<Row>)
        requires
            self.inv(),
            self.spec_len() <= usize::MAX,
        ensures
            rows@.len() == self.spec_len(),
            sorted_rows(rows@),
            forall|r: int|
                0 <= r < 12 ==> rows@.filter(tag_pred(spec_tag_of_rank(r as usize)))
                    == rows_of_lane(#[trigger] self.spec_lane(r), spec_tag_of_rank(r as usize)),
    {
        proof {
            self.lemma_repr();
        }
        let total = self.len();
        let mut rows: Vec<Row> = Vec::new();
        let mut cursors: Vec<usize> = Vec::new();
        let mut r0: usize = 0;
        while r0 < 12
            invariant
                r0 <= 12,
                cursors@.len() == r0,
                forall|p: int| 0 <= p < r0 ==> cursors@[p] == 0,
            decreases 12 - r0,
        {
            cursors.push(0);
            r0 = r0 + 1;
        }
        proof {
            assert forall|r: int| 0 <= r < 12 implies rows@.filter(
                tag_pred(spec_tag_of_rank(r as usize)),
            ) =~= rows_of_lane(self.spec_lane(r).take(cursors@[r] as int), spec_tag_of_rank(
                r as usize,
            )) by {
                reveal(Seq::filter);
                assert(self.spec_lane(r).take(0) =~= Seq::<Location>::empty());
            }
            assert(cursor_sum(cursors@, 12) == 0) by {
                reveal_with_fuel(cursor_sum, 13);
            }
        }
        while rows.len() < total
            invariant
                self.inv(),
                self.spec_num_lanes() == self.lanes@.len(),
                forall|r: int|
                    0 <= r < self.lanes@.len() ==> self.spec_lane(r) == (#[trigger] self.lanes@[r])@,
                total == self.spec_len() <= usize::MAX,
                cursors@.len() == 12,
                forall|r: int|
                    0 <= r < 12 ==> cursors@[r] <= (#[trigger] self.spec_lane(r)).len(),
                rows@.len() == cursor_sum(cursors@, 12),
                sorted_rows(rows@),
                forall|r: int|
                    0 <= r < 12 ==> rows@.filter(tag_pred(spec_tag_of_rank(r as usize)))
                        == rows_of_lane(
                        (#[trigger] self.spec_lane(r)).take(cursors@[r] as int),
                        spec_tag_of_rank(r as usize),
                    ),
                forall|r: int|
                    0 <= r < 12 && cursors@[r] < (#[trigger] self.spec_lane(r)).len() && rows@.len()
                        > 0 ==> row_lt(
                        rows@.last(),
                        row_of(self.spec_lane(r)[cursors@[r] as int], spec_tag_of_rank(r as usize)),
                    ),
            decreases total - rows@.len(),
        {
            let mut best_r: usize = 12;
            let mut best_addr: u64 = 0;
            let mut q: usize = 0;
            while q < 12
                invariant
                    q <= 12,
                    self.inv(),
                    self.spec_num_lanes() == self.lanes@.len(),
                    forall|r: int|
                        0 <= r < self.lanes@.len() ==> self.spec_lane(r) == (
                        #[trigger] self.lanes@[r])@,
                    cursors@.len() == 12,
                    forall|r: int|
                        0 <= r < 12 ==> cursors@[r] <= (#[trigger] self.spec_lane(r)).len(),
                    best_r == 12 || (best_r < q && cursors@[best_r as int] < self.spec_lane(
                        best_r as int,
                    ).len() && best_addr == self.spec_lane(best_r as int)[cursors@[best_r as int] as int].address),
                    best_r == 12 ==> forall|p: int|
                        0 <= p < q ==> cursors@[p] >= (#[trigger] self.spec_lane(p)).len(),
                    forall|p: int|
                        0 <= p < q && p != best_r && cursors@[p] < (
                        #[trigger] self.spec_lane(p)).len() ==> (best_r < 12 && (self.spec_lane(
                            p,
                        )[cursors@[p] as int].address > best_addr || (self.spec_lane(
                            p,
                        )[cursors@[p] as int].address == best_addr && p > best_r))),
                decreases 12 - q,
            {
                let c = cursors[q];
                if c < self.lanes[q].len() {
                    let a = self.lanes[q][c].address;
                    if best_r == 12 || a < best_addr {
                        best_r = q;
                        best_addr = a;
                    }
                }
                q = q + 1;
            }
            proof {
                if best_r == 12 {
                    assert forall|r: int| 0 <= r < 12 implies cursors@[r] == (
                    #[trigger] self.spec_lane(r)).len() by {}
                    lemma_cursor_sum_full(*self, cursors@, 12);
                    assert(false);
                }
            }
            let c = cursors[best_r];
            let l = self.lanes[best_r][c];
            let t = crate::tag::tag_of_rank(best_r);
            let row = Row { address: l.address, tag: t, value: l.value, old_value: l.old_value };
            let ghost prerows = rows@;
            let ghost precursors = cursors@;
            rows.push(row);
            cursors[best_r] = c + 1;
            proof {
                let br = best_r as int;
                crate::tag::lemma_rank_of_tag_of_rank(best_r);
                assert(cursors@ =~= precursors.update(br, (c + 1) as usize));
                lemma_cursor_sum_update(precursors, br, 12);
                // The pushed row extends exactly its own type's filtered image.
                assert forall|r: int|
                    0 <= r < 12 implies rows@.filter(tag_pred(spec_tag_of_rank(r as usize)))
                        == rows_of_lane(
                        (#[trigger] self.spec_lane(r)).take(cursors@[r] as int),
                        spec_tag_of_rank(r as usize),
                    ) by {
                    let t_r = spec_tag_of_rank(r as usize);
                    lemma_filter_push(prerows, tag_pred(t_r), row);
                    if r == br {
                        assert(tag_pred(t_r)(row));
                        assert(self.spec_lane(r).take(c + 1) =~= self.spec_lane(r).take(
                            c as int,
                        ).push(self.spec_lane(r)[c as int]));
                        assert(rows_of_lane(self.spec_lane(r).take(c + 1), t_r) =~= rows_of_lane(
                            self.spec_lane(r).take(c as int),
                            t_r,
                        ).push(row));
                    } else {
                        crate::tag::lemma_rank_of_tag_of_rank(r as usize);
                        assert(t_r.spec_rank() == r && t.spec_rank() == br);
                        assert(!(tag_pred(t_r)(row)));
                        assert(cursors@[r] == precursors[r]);
                    }
                }
                // The pushed row follows everything already emitted.
                assert forall|i: int, j: int| 0 <= i < j < rows@.len() implies row_le(
                    rows@[i],
                    rows@[j],
                ) by {
                    if j == rows@.len() - 1 {
                        assert(rows@[j] == row);
                        if prerows.len() > 0 {
                            assert(row_lt(prerows.last(), row));
                            assert(row_le(prerows[i], prerows.last()) || i == prerows.len() - 1);
                        }
                    }
                }
                // Every remaining head still lies strictly beyond the new last row.
                assert forall|r: int|
                    0 <= r < 12 && cursors@[r] < (#[trigger] self.spec_lane(r)).len() && rows@.len()
                        > 0 implies row_lt(
                    rows@.last(),
                    row_of(self.spec_lane(r)[cursors@[r] as int], spec_tag_of_rank(r as usize)),
                ) by {
                    crate::tag::lemma_rank_of_tag_of_rank(r as usize);
                    if r == br {
                        assert(self.spec_lane(r)[c as int].address < self.spec_lane(r)[c + 1].address);
                    } else {
                        assert(precursors[r] == cursors@[r]);
                    }
                }
            }
        }
        proof {
            assert forall|r: int| 0 <= r < 12 implies cursors@[r] == (
            #[trigger] self.spec_lane(r)).len() by {
                if cursors@[r] < self.spec_lane(r).len() {
                    self.lemma_len_prefix_parts(cursors@, r);
                }
            }
            lemma_cursor_sum_full(*self, cursors@, 12);
            assert forall|r: int|
                0 <= r < 12 implies rows@.filter(tag_pred(spec_tag_of_rank(r as usize)))
                    == rows_of_lane(#[trigger] self.spec_lane(r), spec_tag_of_rank(r as usize)) by {
                assert(self.spec_lane(r).take(cursors@[r] as int) =~= self.spec_lane(r));
            }
        }
        rows
    }

    /// If some cursor is short of its sequence's end while no cursor
    /// exceeds it, the cursor sum is short of the total.
    proof fn lemma_len_prefix_parts(self, cs: Seq<usize>, short: int)
        requires
            cs.len() == 12,
            0 <= short < 12,
            cs[short] < self.spec_lane(short).len(),
            forall|r: int| 0 <= r < 12 ==> cs[r] <= (#[trigger] self.spec_lane(r)).len(),
        ensures
            cursor_sum(cs, 12) < self.spec_len(),
    {
        self.lemma_cursor_sum_le(cs, short, 12);
    }

    /// Cursor sums are bounded by length prefix sums, strictly once a
    /// cursor strictly below its sequence's end is included.
    proof fn lemma_cursor_sum_le(self, cs: Seq<usize>, short: int, k: int)
        requires
            cs.len() == 12,
            0 <= short < 12,
            cs[short] < self.spec_lane(short).len(),
            forall|r: int| 0 <= r < 12 ==> cs[r] <= (#[trigger] self.spec_lane(r)).len(),
            k <= 12,
        ensures
            cursor_sum(cs, k) <= self.spec_len_prefix(k),
            short < k ==> cursor_sum(cs, k) < self.spec_len_prefix(k),
        decreases k,
    {
        if k > 0 {
            self.lemma_cursor_sum_le(cs, short, k - 1);
        }
    }
}

/// A walker over the merged rows of a store, in merge order.
pub struct MemoryIterator {
    rows: Vec<Row>,
    pos: usize,
}

impl MemoryIterator {
    /// The rows this iterator walks.
    pub closed spec fn spec_rows(self) -> Seq<Row> {
        self.rows@
    }

    /// The position of the next row to yield.
    pub closed spec fn spec_pos(self) -> nat {
        self.pos as nat
    }

    /// The next merged row, advancing the iterator; nothing once all
    /// rows are out.
    pub fn next(&mut self) -> (item: Option<Row>)
        ensures
            final(self).spec_rows() == old(self).spec_rows(),
            old(self).spec_pos() < old(self).spec_rows().len() ==> item == Some(
                old(self).spec_rows()[old(self).spec_pos() as int],
            ) && final(self).spec_pos() == old(self).spec_pos() + 1,
            old(self).spec_pos() >= old(self).spec_rows().len() ==> (item is None)
                && final(self).spec_pos() == old(self).spec_pos(),
    {
        if self.pos < self.rows.len() {
            let row = self.rows[self.pos];
            self.pos = self.pos + 1;
            Some(row)
        } else {
            None
        }
    }
}

impl Memory {
    /// An iterator over the merged rows, in ascending address order
    /// with ties broken by the canonical type order.
    pub fn iter(&self) -> (it: MemoryIterator)
        requires
            self.inv(),
            self.spec_len() <= usize::MAX,
        ensures
            it.spec_pos() == 0,
            it.spec_rows().len() == self.spec_len(),
            sorted_rows(it.spec_rows()),
            forall|r: int|
                0 <= r < 12 ==> it.spec_rows().filter(tag_pred(spec_tag_of_rank(r as usize)))
                    == rows_of_lane(#[trigger] self.spec_lane(r), spec_tag_of_rank(r as usize)),
    {
        MemoryIterator { rows: self.merged_rows(), pos: 0 }
    }
}

} // verus!

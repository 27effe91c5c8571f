//! The three passes over the store. A pass never performs process I/O
//! itself: the caller reads the target's memory and hands the results
//! in as byte buffers (one whole page for a scan, one optional window
//! per entry for filter and refresh), and the pass applies the
//! specified update to the store.

use vstd::prelude::*;

use crate::codec::{
    bytes_match, decode_le, le_val, lemma_le_val_bound, window_matches,
};
use crate::store::{lane_wf, Location, Memory};
use crate::tag::{spec_tag_of_rank, Datatype};

verus! {

/// The entry a first scan records for a match of `pat` at offset `off`
/// of the page at `base`: current and previous both hold the operand's
/// value.
pub open spec fn hit_loc(base: u64, off: int, pat: Seq<u8>) -> Location {
    Location {
        address: (base + off) as u64,
        value: le_val(pat) as u128,
        old_value: le_val(pat) as u128,
    }
}

/// The entries a first scan of one page appends: one `hit_loc` for
/// every offset below `upto` where the page bytes equal the operand,
/// in ascending offset order.
pub open spec fn scan_hits(base: u64, buf: Seq<u8>, pat: Seq<u8>, upto: int) -> Seq<Location>
    decreases upto,
{
    if upto <= 0 {
        Seq::empty()
    } else {
        scan_hits(base, buf, pat, upto - 1) + if window_matches(buf, pat, upto - 1) {
            seq![hit_loc(base, upto - 1, pat)]
        } else {
            Seq::empty()
        }
    }
}

/// The number of window offsets a scan of `buf` for `pat` considers.
pub open spec fn scan_upto(buf: Seq<u8>, pat: Seq<u8>) -> int {
    if pat.len() <= buf.len() {
        buf.len() - pat.len() + 1
    } else {
        0
    }
}

/// Whether a filter pass keeps an entry: its freshly read bytes exist
/// and equal the operand.
pub open spec fn keep_filter(read: Option<Seq<u8>>, operand: Seq<u8>) -> bool {
    read matches Some(b) && b == operand
}

/// Whether a refresh pass keeps an entry: its bytes could be re-read
/// at the full width `w`.
pub open spec fn keep_refresh(read: Option<Seq<u8>>, w: nat) -> bool {
    read matches Some(b) && b.len() == w
}

/// The entry a pass writes back for `l` when the fresh read returned
/// `bytes`: the previous value becomes the old current, the current
/// becomes the freshly read value.
pub open spec fn refreshed_loc(l: Location, bytes: Seq<u8>) -> Location {
    Location { address: l.address, value: le_val(bytes) as u128, old_value: l.value }
}

/// The sequence a filter pass leaves for one type: entries whose fresh
/// read equals the operand, in their old relative order, each with
/// `old_value` set to its value before the pass and `value` to the
/// operand's value.
pub open spec fn filter_lane(
    lane: Seq<Location>,
    reads: Seq<Option<Seq<u8>>>,
    operand: Seq<u8>,
) -> Seq<Location>
    decreases lane.len(),
{
    if lane.len() == 0 {
        Seq::empty()
    } else {
        filter_lane(lane.drop_last(), reads.drop_last(), operand) + if keep_filter(
            reads[lane.len() - 1],
            operand,
        ) {
            seq![refreshed_loc(lane.last(), operand)]
        } else {
            Seq::empty()
        }
    }
}

/// The sequence a refresh pass leaves for one type of width `w`:
/// entries whose bytes could be re-read, in their old relative order,
/// each updated from its fresh read.
pub open spec fn refresh_lane(lane: Seq<Location>, reads: Seq<Option<Seq<u8>>>, w: nat) -> Seq<
    Location,
>
    decreases lane.len(),
{
    if lane.len() == 0 {
        Seq::empty()
    } else {
        refresh_lane(lane.drop_last(), reads.drop_last(), w) + if keep_refresh(
            reads[lane.len() - 1],
            w,
        ) {
            seq![refreshed_loc(lane.last(), reads[lane.len() - 1].unwrap())]
        } else {
            Seq::empty()
        }
    }
}

impl Memory {
    /// First-scan of one page: appends an entry for every offset of
    /// `buffer` where the operand's bytes occur, at stride one, in
    /// ascending address order. The caller scans pages in ascending
    /// base order starting from an empty type sequence, so every
    /// existing entry of the type lies below this page.
    pub fn scan_page(
        &mut self,
        base: u64,
        buffer: &[u8],
        target_type: Datatype,
        target_bytes: &[u8],
    )
        requires
            old(self).inv(),
            target_bytes@.len() == target_type.spec_width(),
            base + buffer@.len() <= u64::MAX + 1,
            forall|i: int|
                0 <= i < old(self).lane_for(target_type).len() ==> (#[trigger] old(self).lane_for(
                    target_type,
                )[i]).address < base,
        ensures
            final(self).inv(),
            final(self).lane_for(target_type) == old(self).lane_for(target_type) + scan_hits(
                base,
                buffer@,
                target_bytes@,
                scan_upto(buffer@, target_bytes@),
            ),
            forall|r: int|
                0 <= r < 12 && r != target_type.spec_rank() ==> final(self).spec_lane(r) == old(
                    self,
                ).spec_lane(r),
    {
        let ghost oldlane = old(self).lane_for(target_type);
        let plen = target_bytes.len();
        let blen = buffer.len();
        if blen < plen {
            proof {
                assert(oldlane + scan_hits(base, buffer@, target_bytes@, 0) =~= oldlane);
            }
            return ;
        }
        let limit = blen - plen;
        let mut off: usize = 0;
        while off <= limit
            invariant
                self.inv(),
                off <= limit + 1,
                limit == blen - plen,
                plen == target_bytes@.len() == target_type.spec_width(),
                blen == buffer@.len(),
                base + blen <= u64::MAX + 1,
                self.lane_for(target_type) =~= oldlane + scan_hits(
                    base,
                    buffer@,
                    target_bytes@,
                    off as int,
                ),
                forall|i: int|
                    0 <= i < self.lane_for(target_type).len() ==> (#[trigger] self.lane_for(
                        target_type,
                    )[i]).address < base + off,
                forall|r: int|
                    0 <= r < 12 && r != target_type.spec_rank() ==> self.spec_lane(r) == old(
                        self,
                    ).spec_lane(r),
            decreases limit + 1 - off,
        {
            let ghost prelane = self.lane_for(target_type);
            if bytes_match(buffer, off, target_bytes) {
                let address = base + off as u64;
                self.push(address, target_type, target_bytes);
                proof {
                    assert(self.lane_for(target_type) =~= oldlane + scan_hits(
                        base,
                        buffer@,
                        target_bytes@,
                        off + 1,
                    ));
                }
            } else {
                proof {
                    assert(scan_hits(base, buffer@, target_bytes@, off + 1) =~= scan_hits(
                        base,
                        buffer@,
                        target_bytes@,
                        off as int,
                    ));
                    assert(self.lane_for(target_type) =~= oldlane + scan_hits(
                        base,
                        buffer@,
                        target_bytes@,
                        off + 1,
                    ));
                }
            }
            off = off + 1;
        }
        proof {
            assert(scan_upto(buffer@, target_bytes@) == limit + 1);
        }
    }

    /// Filter pass for one type: walks its entries beside the fresh
    /// per-entry reads, moves each entry's value into `old_value`,
    /// takes the freshly read bytes as the new value, and keeps exactly
    /// the entries whose fresh read equals the operand. Entries of
    /// other types are untouched.
    pub fn filter_in_place(
        &mut self,
        target_type: Datatype,
        target_bytes: &[u8],
        reads: &Vec<Option<Vec<u8>>>,
    )
        requires
            old(self).inv(),
            target_bytes@.len() == target_type.spec_width(),
            reads@.len() == old(self).lane_for(target_type).len(),
        ensures
            final(self).inv(),
            final(self).lane_for(target_type) == filter_lane(
                old(self).lane_for(target_type),
                reads.deep_view(),
                target_bytes@,
            ),
            forall|r: int|
                0 <= r < 12 && r != target_type.spec_rank() ==> final(self).spec_lane(r) == old(
                    self,
                ).spec_lane(r),
    {
        let r = target_type.rank();
        proof {
            self.lemma_repr();
        }
        let n = self.lanes[r].len();
        let ghost oldlane = old(self).lane_for(target_type);
        let mut newlane: Vec<Location> = Vec::new();
        let mut i: usize = 0;
        while i < n
            invariant
                self == old(self),
                self.inv(),
                i <= n,
                r == target_type.spec_rank(),
                n == oldlane.len(),
                oldlane == self.lane_for(target_type),
                self.spec_lane(r as int) == self.lanes@[r as int]@,
                self.spec_num_lanes() == self.lanes@.len(),
                target_bytes@.len() == target_type.spec_width(),
                reads@.len() == n,
                newlane@ =~= filter_lane(
                    oldlane.take(i as int),
                    reads.deep_view().take(i as int),
                    target_bytes@,
                ),
            decreases n - i,
        {
            let ghost prelane = newlane@;
            let l = self.lanes[r][i];
            match &reads[i] {
                Some(b) => {
                    proof {
                        assert(b.deep_view() =~= b@);
                        assert(reads@[i as int].deep_view() == Some(b@));
                    }
                    if crate::codec::eq_bytes(b.as_slice(), target_bytes) {
                        newlane.push(
                            Location { address: l.address, value: decode_le(target_bytes), old_value: l.value },
                        );
                    }
                },
                None => {
                    proof {
                        assert(reads@[i as int].deep_view() is None);
                    }
                },
            }
            proof {
                let vi = i as int;
                let rdv = reads.deep_view();
                let op = target_bytes@;
                assert(rdv[vi] == reads@[vi].deep_view());
                assert(oldlane.take(vi + 1).drop_last() =~= oldlane.take(vi));
                assert(rdv.take(vi + 1).drop_last() =~= rdv.take(vi));
                assert(oldlane.take(vi + 1).last() == oldlane[vi]);
                assert(rdv.take(vi + 1)[vi] == rdv[vi]);
                assert(filter_lane(oldlane.take(vi + 1), rdv.take(vi + 1), op) == filter_lane(
                    oldlane.take(vi),
                    rdv.take(vi),
                    op,
                ) + if keep_filter(rdv[vi], op) {
                    seq![refreshed_loc(oldlane[vi], op)]
                } else {
                    Seq::empty()
                });
                if keep_filter(rdv[vi], op) {
                    assert(newlane@ =~= prelane + seq![refreshed_loc(oldlane[vi], op)]);
                } else {
                    assert(newlane@ =~= prelane + Seq::<Location>::empty());
                }
                assert(newlane@ =~= filter_lane(oldlane.take(vi + 1), rdv.take(vi + 1), op));
            }
            i = i + 1;
        }
        proof {
            assert(oldlane.take(n as int) =~= oldlane);
            assert(reads.deep_view().take(n as int) =~= reads.deep_view());
            lemma_pass_lane_wf_filter(
                oldlane,
                reads.deep_view(),
                target_bytes@,
                target_type.spec_width() as nat,
            );
        }
        core::mem::swap(&mut self.lanes[r], &mut newlane);
        proof {
            old(self).lemma_repr();
            self.lemma_repr();
            assert forall|q: int|
                0 <= q < 12 && q != r ==> self.spec_lane(q) == old(self).spec_lane(q) by {
                if 0 <= q < 12 && q != r {
                    assert(self.lanes@[q] == old(self).lanes@[q]);
                    assert(self.spec_lane(q) == self.lanes@[q]@);
                    assert(old(self).spec_lane(q) == old(self).lanes@[q]@);
                }
            }
            assert forall|q: int|
                0 <= q < 12 implies lane_wf(
                #[trigger] self.spec_lane(q),
                spec_tag_of_rank(q as usize).spec_width() as nat,
            ) by {
                if q != r as int {
                    assert(self.spec_lane(q) == old(self).spec_lane(q));
                } else {
                    crate::tag::lemma_tag_of_rank_of_tag(target_type);
                }
            }
        }
    }

    /// Refresh pass for one type: walks its entries beside the fresh
    /// per-entry reads, moves each entry's value into `old_value` and
    /// re-decodes the fresh bytes as the new value; entries whose
    /// memory could not be re-read are dropped, and no entry is dropped
    /// for a changed value. Entries of other types are untouched.
    pub fn refresh_in_place(&mut self, target_type: Datatype, reads: &Vec<Option<Vec<u8>>>)
        requires
            old(self).inv(),
            reads@.len() == old(self).lane_for(target_type).len(),
        ensures
            final(self).inv(),
            final(self).lane_for(target_type) == refresh_lane(
                old(self).lane_for(target_type),
                reads.deep_view(),
                target_type.spec_width() as nat,
            ),
            forall|r: int|
                0 <= r < 12 && r != target_type.spec_rank() ==> final(self).spec_lane(r) == old(
                    self,
                ).spec_lane(r),
    {
        let r = target_type.rank();
        let w = target_type.width();
        proof {
            self.lemma_repr();
        }
        let n = self.lanes[r].len();
        let ghost oldlane = old(self).lane_for(target_type);
        let mut newlane: Vec<Location> = Vec::new();
        let mut i: usize = 0;
        while i < n
            invariant
                self == old(self),
                self.inv(),
                i <= n,
                r == target_type.spec_rank(),
                w == target_type.spec_width(),
                n == oldlane.len(),
                oldlane == self.lane_for(target_type),
                self.spec_lane(r as int) == self.lanes@[r as int]@,
                self.spec_num_lanes() == self.lanes@.len(),
                reads@.len() == n,
                newlane@ =~= refresh_lane(
                    oldlane.take(i as int),
                    reads.deep_view().take(i as int),
                    w as nat,
                ),
            decreases n - i,
        {
            let ghost prelane = newlane@;
            let l = self.lanes[r][i];
            match &reads[i] {
                Some(b) => {
                    proof {
                        assert(b.deep_view() =~= b@);
                        assert(reads@[i as int].deep_view() == Some(b@));
                    }
                    if b.len() == w {
                        newlane.push(
                            Location {
                                address: l.address,
                                value: decode_le(b.as_slice()),
                                old_value: l.value,
                            },
                        );
                    }
                },
                None => {
                    proof {
                        assert(reads@[i as int].deep_view() is None);
                    }
                },
            }
            proof {
                let vi = i as int;
                let rdv = reads.deep_view();
                let wn = w as nat;
                assert(rdv[vi] == reads@[vi].deep_view());
                assert(oldlane.take(vi + 1).drop_last() =~= oldlane.take(vi));
                assert(rdv.take(vi + 1).drop_last() =~= rdv.take(vi));
                assert(oldlane.take(vi + 1).last() == oldlane[vi]);
                assert(rdv.take(vi + 1)[vi] == rdv[vi]);
                assert(refresh_lane(oldlane.take(vi + 1), rdv.take(vi + 1), wn) == refresh_lane(
                    oldlane.take(vi),
                    rdv.take(vi),
                    wn,
                ) + if keep_refresh(rdv[vi], wn) {
                    seq![refreshed_loc(oldlane[vi], rdv[vi].unwrap())]
                } else {
                    Seq::empty()
                });
                if keep_refresh(rdv[vi], wn) {
                    assert(newlane@ =~= prelane + seq![refreshed_loc(oldlane[vi], rdv[vi].unwrap())]);
                } else {
                    assert(newlane@ =~= prelane + Seq::<Location>::empty());
                }
                assert(newlane@ =~= refresh_lane(oldlane.take(vi + 1), rdv.take(vi + 1), wn));
            }
            i = i + 1;
        }
        proof {
            assert(oldlane.take(n as int) =~= oldlane);
            assert(reads.deep_view().take(n as int) =~= reads.deep_view());
            lemma_pass_lane_wf_refresh(oldlane, reads.deep_view(), target_type.spec_width() as nat);
        }
        core::mem::swap(&mut self.lanes[r], &mut newlane);
        proof {
            old(self).lemma_repr();
            self.lemma_repr();
            assert forall|q: int|
                0 <= q < 12 && q != r ==> self.spec_lane(q) == old(self).spec_lane(q) by {
                if 0 <= q < 12 && q != r {
                    assert(self.lanes@[q] == old(self).lanes@[q]);
                    assert(self.spec_lane(q) == self.lanes@[q]@);
                    assert(old(self).spec_lane(q) == old(self).lanes@[q]@);
                }
            }
            assert forall|q: int|
                0 <= q < 12 implies lane_wf(
                #[trigger] self.spec_lane(q),
                spec_tag_of_rank(q as usize).spec_width() as nat,
            ) by {
                if q != r as int {
                    assert(self.spec_lane(q) == old(self).spec_lane(q));
                } else {
                    crate::tag::lemma_tag_of_rank_of_tag(target_type);
                }
            }
        }
    }
}

/// A filter pass keeps a type's sequence well-formed: surviving
/// entries stay strictly ascending by address and their values fit the
/// width, and no entry's address exceeds the largest address the type
/// had before.
pub proof fn lemma_pass_lane_wf_filter(
    lane: Seq<Location>,
    reads: Seq<Option<Seq<u8>>>,
    operand: Seq<u8>,
    w: nat,
)
    requires
        reads.len() == lane.len(),
        lane_wf(lane, w),
        operand.len() == w,
    ensures
        lane_wf(filter_lane(lane, reads, operand), w),
        forall|k: int|
            0 <= k < filter_lane(lane, reads, operand).len() ==> lane.len() > 0 && (
            #[trigger] filter_lane(lane, reads, operand)[k]).address <= lane.last().address,
    decreases lane.len(),
{
    if lane.len() > 0 {
        let pre = lane.drop_last();
        let rdpre = reads.drop_last();
        assert(lane_wf(pre, w));
        lemma_pass_lane_wf_filter(pre, rdpre, operand, w);
        let fpre = filter_lane(pre, rdpre, operand);
        let f = filter_lane(lane, reads, operand);
        lemma_le_val_bound(operand);
        assert forall|a: int, b: int| 0 <= a < b < f.len() implies f[a].address < f[b].address by {
            if b >= fpre.len() {
                assert(f[b] == refreshed_loc(lane.last(), operand));
                assert(f[a] == fpre[a]);
                assert(fpre[a].address <= pre.last().address);
                assert(pre.last().address < lane.last().address);
            }
        }
        assert forall|k: int| 0 <= k < f.len() implies f[k].address <= lane.last().address by {
            if k < fpre.len() {
                assert(f[k] == fpre[k]);
                assert(fpre[k].address <= pre.last().address);
                assert(pre.last().address < lane.last().address);
            } else {
                assert(f[k] == refreshed_loc(lane.last(), operand));
            }
        }
    }
}

/// A refresh pass keeps a type's sequence well-formed: surviving
/// entries stay strictly ascending by address and their values fit the
/// width, and no entry's address exceeds the largest address the type
/// had before.
pub proof fn lemma_pass_lane_wf_refresh(lane: Seq<Location>, reads: Seq<Option<Seq<u8>>>, w: nat)
    requires
        reads.len() == lane.len(),
        lane_wf(lane, w),
    ensures
        lane_wf(refresh_lane(lane, reads, w), w),
        forall|k: int|
            0 <= k < refresh_lane(lane, reads, w).len() ==> lane.len() > 0 && (
            #[trigger] refresh_lane(lane, reads, w)[k]).address <= lane.last().address,
    decreases lane.len(),
{
    if lane.len() > 0 {
        let pre = lane.drop_last();
        let rdpre = reads.drop_last();
        assert(lane_wf(pre, w));
        lemma_pass_lane_wf_refresh(pre, rdpre, w);
        let fpre = refresh_lane(pre, rdpre, w);
        let f = refresh_lane(lane, reads, w);
        if keep_refresh(reads[lane.len() - 1], w) {
            lemma_le_val_bound(reads[lane.len() - 1].unwrap());
        }
        assert forall|a: int, b: int| 0 <= a < b < f.len() implies f[a].address < f[b].address by {
            if b >= fpre.len() {
                assert(f[a] == fpre[a]);
                assert(fpre[a].address <= pre.last().address);
                assert(pre.last().address < lane.last().address);
            }
        }
        assert forall|k: int| 0 <= k < f.len() implies f[k].address <= lane.last().address by {
            if k < fpre.len() {
                assert(f[k] == fpre[k]);
                assert(fpre[k].address <= pre.last().address);
                assert(pre.last().address < lane.last().address);
            }
        }
    }
}

/// Entry `k` of the hit sequence `h` records a genuine match: some
/// offset below `upto` where the operand occurs, at the address the
/// entry names.
pub open spec fn hit_is_match(
    h: Seq<Location>,
    k: int,
    base: u64,
    buf: Seq<u8>,
    pat: Seq<u8>,
    upto: int,
) -> bool {
    exists|o: int| 0 <= o < upto && window_matches(buf, pat, o) && h[k] == hit_loc(base, o, pat)
}

/// The hit sequence `h` holds an entry for the match at offset `o`.
pub open spec fn hit_recorded(h: Seq<Location>, base: u64, pat: Seq<u8>, o: int) -> bool {
    exists|k: int| 0 <= k < h.len() && h[k] == hit_loc(base, o, pat)
}

/// Scan soundness: every entry a page scan appends records a match of
/// the operand, at the offset its address names.
pub proof fn lemma_scan_hits_sound(base: u64, buf: Seq<u8>, pat: Seq<u8>, upto: int)
    ensures
        forall|k: int|
            0 <= k < scan_hits(base, buf, pat, upto).len() ==> #[trigger] hit_is_match(
                scan_hits(base, buf, pat, upto),
                k,
                base,
                buf,
                pat,
                upto,
            ),
    decreases upto,
{
    if upto > 0 {
        lemma_scan_hits_sound(base, buf, pat, upto - 1);
        let hpre = scan_hits(base, buf, pat, upto - 1);
        let h = scan_hits(base, buf, pat, upto);
        assert forall|k: int| 0 <= k < h.len() implies #[trigger] hit_is_match(
            h,
            k,
            base,
            buf,
            pat,
            upto,
        ) by {
            if k < hpre.len() {
                assert(hit_is_match(hpre, k, base, buf, pat, upto - 1));
                let o = choose|o: int|
                    0 <= o < upto - 1 && window_matches(buf, pat, o) && hpre[k] == hit_loc(
                        base,
                        o,
                        pat,
                    );
                assert(h[k] == hpre[k]);
                assert(0 <= o < upto && window_matches(buf, pat, o) && h[k] == hit_loc(
                    base,
                    o,
                    pat,
                ));
            } else {
                assert(window_matches(buf, pat, upto - 1));
                assert(h[k] == hit_loc(base, upto - 1, pat));
            }
        }
    }
}

/// Scan completeness: every offset where the operand's bytes occur is
/// recorded by the page scan.
pub proof fn lemma_scan_hits_complete(base: u64, buf: Seq<u8>, pat: Seq<u8>, upto: int, o: int)
    requires
        0 <= o < upto,
        window_matches(buf, pat, o),
    ensures
        hit_recorded(scan_hits(base, buf, pat, upto), base, pat, o),
    decreases upto,
{
    let h = scan_hits(base, buf, pat, upto);
    if o == upto - 1 {
        assert(h[h.len() - 1] == hit_loc(base, o, pat));
    } else {
        lemma_scan_hits_complete(base, buf, pat, upto - 1, o);
        let hpre = scan_hits(base, buf, pat, upto - 1);
        let k = choose|k: int| 0 <= k < hpre.len() && hpre[k] == hit_loc(base, o, pat);
        assert(h[k] == hpre[k]);
        assert(0 <= k < h.len() && h[k] == hit_loc(base, o, pat));
    }
}

/// First-scan values: every entry a page scan appends starts with
/// current and previous both equal to the operand's value.
pub proof fn lemma_scan_hits_values(base: u64, buf: Seq<u8>, pat: Seq<u8>, upto: int)
    ensures
        forall|k: int|
            0 <= k < scan_hits(base, buf, pat, upto).len() ==> (#[trigger] scan_hits(
                base,
                buf,
                pat,
                upto,
            )[k]).value == le_val(pat) as u128 && scan_hits(base, buf, pat, upto)[k].old_value
                == le_val(pat) as u128,
    decreases upto,
{
    if upto > 0 {
        lemma_scan_hits_values(base, buf, pat, upto - 1);
        let hpre = scan_hits(base, buf, pat, upto - 1);
        let h = scan_hits(base, buf, pat, upto);
        assert forall|k: int|
            0 <= k < h.len() implies (#[trigger] h[k]).value == le_val(pat) as u128
            && h[k].old_value == le_val(pat) as u128 by {
            if k < hpre.len() {
                assert(h[k] == hpre[k]);
            } else {
                assert(h[k] == hit_loc(base, upto - 1, pat));
            }
        }
    }
}

/// Entry `k` of the filtered sequence `f` came from some old entry
/// whose fresh read equals the operand, with its previous value set to
/// the value that entry had before the pass.
pub open spec fn filter_entry_from(
    f: Seq<Location>,
    k: int,
    lane: Seq<Location>,
    reads: Seq<Option<Seq<u8>>>,
    operand: Seq<u8>,
) -> bool {
    exists|j: int|
        0 <= j < lane.len() && keep_filter(reads[j], operand) && f[k] == refreshed_loc(
            lane[j],
            operand,
        )
}

/// The filtered sequence `f` kept old entry `j`, updated.
pub open spec fn filter_kept(
    f: Seq<Location>,
    j: int,
    lane: Seq<Location>,
    operand: Seq<u8>,
) -> bool {
    exists|k: int| 0 <= k < f.len() && f[k] == refreshed_loc(lane[j], operand)
}

/// Filter membership, both ways: every surviving entry is an old entry
/// whose fresh read equals the operand, carried over with its previous
/// value set to the value it had before the pass; and every old entry
/// whose fresh read equals the operand survives.
pub proof fn lemma_filter_membership(
    lane: Seq<Location>,
    reads: Seq<Option<Seq<u8>>>,
    operand: Seq<u8>,
)
    requires
        reads.len() == lane.len(),
    ensures
        forall|k: int|
            0 <= k < filter_lane(lane, reads, operand).len() ==> #[trigger] filter_entry_from(
                filter_lane(lane, reads, operand),
                k,
                lane,
                reads,
                operand,
            ),
        forall|j: int|
            0 <= j < lane.len() && keep_filter(#[trigger] reads[j], operand) ==> filter_kept(
                filter_lane(lane, reads, operand),
                j,
                lane,
                operand,
            ),
    decreases lane.len(),
{
    if lane.len() > 0 {
        let pre = lane.drop_last();
        let rdpre = reads.drop_last();
        lemma_filter_membership(pre, rdpre, operand);
        let fpre = filter_lane(pre, rdpre, operand);
        let f = filter_lane(lane, reads, operand);
        let last = lane.len() - 1;
        assert forall|k: int| 0 <= k < f.len() implies #[trigger] filter_entry_from(
            f,
            k,
            lane,
            reads,
            operand,
        ) by {
            if k < fpre.len() {
                assert(filter_entry_from(fpre, k, pre, rdpre, operand));
                let j = choose|j: int|
                    0 <= j < pre.len() && keep_filter(rdpre[j], operand) && fpre[k]
                        == refreshed_loc(pre[j], operand);
                assert(f[k] == fpre[k]);
                assert(lane[j] == pre[j] && reads[j] == rdpre[j]);
                assert(0 <= j < lane.len() && keep_filter(reads[j], operand) && f[k]
                    == refreshed_loc(lane[j], operand));
            } else {
                assert(keep_filter(reads[last], operand));
                assert(f[k] == refreshed_loc(lane[last], operand));
            }
        }
        assert forall|j: int|
            0 <= j < lane.len() && keep_filter(#[trigger] reads[j], operand) implies filter_kept(
            f,
            j,
            lane,
            operand,
        ) by {
            if j < last {
                assert(rdpre[j] == reads[j] && pre[j] == lane[j]);
                assert(filter_kept(fpre, j, pre, operand));
                let k = choose|k: int|
                    0 <= k < fpre.len() && fpre[k] == refreshed_loc(pre[j], operand);
                assert(f[k] == fpre[k]);
                assert(0 <= k < f.len() && f[k] == refreshed_loc(lane[j], operand));
            } else {
                assert(f[f.len() - 1] == refreshed_loc(lane[last], operand));
            }
        }
    }
}

/// Entry `k` of the refreshed sequence `f` came from some old entry
/// whose memory could be re-read, updated from its fresh bytes, with
/// its previous value set to the value that entry had before the pass.
pub open spec fn refresh_entry_from(
    f: Seq<Location>,
    k: int,
    lane: Seq<Location>,
    reads: Seq<Option<Seq<u8>>>,
    w: nat,
) -> bool {
    exists|j: int|
        0 <= j < lane.len() && keep_refresh(reads[j], w) && f[k] == refreshed_loc(
            lane[j],
            reads[j].unwrap(),
        )
}

/// The refreshed sequence `f` kept old entry `j`, updated.
pub open spec fn refresh_kept(
    f: Seq<Location>,
    j: int,
    lane: Seq<Location>,
    reads: Seq<Option<Seq<u8>>>,
) -> bool {
    exists|k: int| 0 <= k < f.len() && f[k] == refreshed_loc(lane[j], reads[j].unwrap())
}

/// Refresh stability, both ways: every surviving entry is an old entry
/// whose memory could be re-read, updated from its fresh bytes; and
/// every old entry whose memory could be re-read survives, never
/// dropped for a changed value.
pub proof fn lemma_refresh_membership(lane: Seq<Location>, reads: Seq<Option<Seq<u8>>>, w: nat)
    requires
        reads.len() == lane.len(),
    ensures
        forall|k: int|
            0 <= k < refresh_lane(lane, reads, w).len() ==> #[trigger] refresh_entry_from(
                refresh_lane(lane, reads, w),
                k,
                lane,
                reads,
                w,
            ),
        forall|j: int|
            0 <= j < lane.len() && keep_refresh(#[trigger] reads[j], w) ==> refresh_kept(
                refresh_lane(lane, reads, w),
                j,
                lane,
                reads,
            ),
    decreases lane.len(),
{
    if lane.len() > 0 {
        let pre = lane.drop_last();
        let rdpre = reads.drop_last();
        lemma_refresh_membership(pre, rdpre, w);
        let fpre = refresh_lane(pre, rdpre, w);
        let f = refresh_lane(lane, reads, w);
        let last = lane.len() - 1;
        assert forall|k: int| 0 <= k < f.len() implies #[trigger] refresh_entry_from(
            f,
            k,
            lane,
            reads,
            w,
        ) by {
            if k < fpre.len() {
                assert(refresh_entry_from(fpre, k, pre, rdpre, w));
                let j = choose|j: int|
                    0 <= j < pre.len() && keep_refresh(rdpre[j], w) && fpre[k] == refreshed_loc(
                        pre[j],
                        rdpre[j].unwrap(),
                    );
                assert(f[k] == fpre[k]);
                assert(lane[j] == pre[j] && reads[j] == rdpre[j]);
                assert(0 <= j < lane.len() && keep_refresh(reads[j], w) && f[k] == refreshed_loc(
                    lane[j],
                    reads[j].unwrap(),
                ));
            } else {
                assert(keep_refresh(reads[last], w));
                assert(f[k] == refreshed_loc(lane[last], reads[last].unwrap()));
            }
        }
        assert forall|j: int|
            0 <= j < lane.len() && keep_refresh(#[trigger] reads[j], w) implies refresh_kept(
            f,
            j,
            lane,
            reads,
        ) by {
            if j < last {
                assert(rdpre[j] == reads[j] && pre[j] == lane[j]);
                assert(refresh_kept(fpre, j, pre, rdpre));
                let k = choose|k: int|
                    0 <= k < fpre.len() && fpre[k] == refreshed_loc(pre[j], rdpre[j].unwrap());
                assert(f[k] == fpre[k]);
                assert(0 <= k < f.len() && f[k] == refreshed_loc(lane[j], reads[j].unwrap()));
            } else {
                assert(f[f.len() - 1] == refreshed_loc(lane[last], reads[last].unwrap()));
            }
        }
    }
}

} // verus!
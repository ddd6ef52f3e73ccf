//! The candidate engine: reading the digits or candidates of an area,
//! recomputing one cell's exact candidate set, localized recomputation over
//! a cell's area-of-effect with cascading forced assignments, and the full
//! rescan over every cell.
use vstd::prelude::*;

use crate::board::Board;
use crate::model::{
    accurate, admits, all_accurate, area_cands_contain, area_digits_contain, cand_ok,
    cands_in_prefix, cands_seq_prefix, cascade_settled, cell_cands_exact, cell_frame_eq, consistent,
    digits_in_prefix, digits_monotone, digits_seq_prefix, is_peer,
    lemma_admitted_value_is_candidate, lemma_cand_ok_frame, lemma_exactness_frame,
    lemma_unassigned_count_le, lemma_unassigned_count_lt, repaired, same_frame, strictly_sorted,
    unassigned_count, wf, wf_cell,
};

verus! {

broadcast use vstd::seq_lib::lemma_seq_contains_after_push;

/// Linear scan for a value in a digit list.
pub(crate) fn contains_u16(v: &Vec<u16>, x: u16) -> (r: bool)
    ensures
        r == v@.contains(x),
{
    let mut k: usize = 0;
    while k < v.len()
        invariant
            k <= v@.len(),
            forall|m: int| 0 <= m < k ==> v@[m] != x,
        decreases v@.len() - k,
    {
        if v[k] == x {
            return true;
        }
        k = k + 1;
    }
    false
}

impl Board {
    /// The digits (or, for `return_cand`, the remaining candidates of the
    /// unassigned cells) found in the cells that `area` names: exactly
    /// their concatenation in area order, each cell contributing its digit
    /// (when assigned) or its ascending candidate list (when not).
    pub fn coords_to_digits(&self, area: &Vec<usize>, return_cand: bool) -> (out: Vec<u16>)
        requires
            forall|k: int| 0 <= k < area@.len() ==> (#[trigger] area@[k]) < self@.cells.len(),
        ensures
            !return_cand ==> out@ == digits_seq_prefix(self@, area@, area@.len() as int),
            return_cand ==> out@ == cands_seq_prefix(self@, area@, area@.len() as int),
            !return_cand ==> (forall|v: u16| #[trigger]
                out@.contains(v) <==> area_digits_contain(self@, area@, v)),
            return_cand ==> (forall|v: u16| #[trigger]
                out@.contains(v) <==> area_cands_contain(self@, area@, v)),
    {
        let mut out: Vec<u16> = Vec::new();
        let mut m: usize = 0;
        while m < area.len()
            invariant
                m <= area@.len(),
                !return_cand ==> out@ == digits_seq_prefix(self@, area@, m as int),
                return_cand ==> out@ == cands_seq_prefix(self@, area@, m as int),
                !return_cand ==> (forall|v: u16| #[trigger]
                    out@.contains(v) <==> digits_in_prefix(self@, area@, m as int, v)),
                return_cand ==> (forall|v: u16| #[trigger]
                    out@.contains(v) <==> cands_in_prefix(self@, area@, m as int, v)),
            decreases area@.len() - m,
        {
            let idx = area[m];
            if return_cand {
                if self.cell[idx].digit == 0 {
                    let mut k: usize = 0;
                    while k < self.cell[idx].cand.len()
                        invariant
                            idx == area@[m as int],
                            idx < self@.cells.len(),
                            m < area@.len(),
                            self@.cells[idx as int].digit == 0,
                            k <= self@.cells[idx as int].cand.len(),
                            out@ == cands_seq_prefix(self@, area@, m as int) + self@.cells[
                                idx as int].cand.subrange(0, k as int),
                            forall|v: u16| #[trigger]
                                out@.contains(v) <==> cands_in_prefix(self@, area@, m as int, v)
                                    || (exists|kk: int|
                                    0 <= kk < k && (#[trigger] self@.cells[idx as int].cand[kk])
                                        == v),
                        decreases self@.cells[idx as int].cand.len() - k,
                    {
                        let ghost prev = out@;
                        let ghost ck = self@.cells[idx as int].cand;
                        out.push(self.cell[idx].cand[k]);
                        proof {
                            assert(out@ == prev.push(ck[k as int]));
                            assert(ck.subrange(0, k + 1) =~= ck.subrange(0, k as int).push(
                                ck[k as int],
                            ));
                            assert(out@ =~= cands_seq_prefix(self@, area@, m as int) + ck.subrange(
                                0,
                                k + 1,
                            ));
                        }
                        k = k + 1;
                    }
                    proof {
                        let ck = self@.cells[idx as int].cand;
                        assert(ck.subrange(0, ck.len() as int) =~= ck);
                        assert(out@ =~= cands_seq_prefix(self@, area@, m + 1));
                        assert forall|v: u16| #[trigger]
                            out@.contains(v) <==> cands_in_prefix(
                            self@,
                            area@,
                            m + 1,
                            v,
                        ) by {
                            if out@.contains(v) {
                                if cands_in_prefix(self@, area@, m as int, v) {
                                    assert(cands_in_prefix(self@, area@, m + 1, v));
                                } else {
                                    let kk = choose|kk: int|
                                        0 <= kk < ck.len() && (#[trigger] ck[kk]) == v;
                                    assert(ck.contains(v));
                                    assert(self@.cells[area@[m as int] as int].digit == 0
                                        && self@.cells[area@[m as int] as int].cand.contains(v));
                                    assert(cands_in_prefix(self@, area@, m + 1, v));
                                }
                            }
                            if cands_in_prefix(self@, area@, m + 1, v) {
                                let kk = choose|kk: int|
                                    0 <= kk < m + 1 && kk < area@.len() && self@.cells[
                                    #[trigger] area@[kk] as int].digit == 0 && self@.cells[area@[kk]
                                    as int].cand.contains(v);
                                if kk < m {
                                    assert(cands_in_prefix(self@, area@, m as int, v));
                                } else {
                                    let kk2 = choose|kk2: int|
                                        0 <= kk2 < ck.len() && ck[kk2] == v;
                                    assert(exists|kk3: int|
                                        0 <= kk3 < ck.len() && (#[trigger] ck[kk3]) == v);
                                }
                            }
                        }
                    }
                } else {
                    proof {
                        assert(out@ =~= cands_seq_prefix(self@, area@, m + 1));
                        assert forall|v: u16| #[trigger]
                            out@.contains(v) <==> cands_in_prefix(
                            self@,
                            area@,
                            m + 1,
                            v,
                        ) by {
                            if cands_in_prefix(self@, area@, m + 1, v) {
                                let kk = choose|kk: int|
                                    0 <= kk < m + 1 && kk < area@.len() && self@.cells[
                                    #[trigger] area@[kk] as int].digit == 0 && self@.cells[area@[kk]
                                    as int].cand.contains(v);
                                assert(kk < m);
                                assert(cands_in_prefix(self@, area@, m as int, v));
                            }
                        }
                    }
                }
            } else {
                let d = self.cell[idx].digit;
                let ghost prev = out@;
                if d != 0 {
                    out.push(d);
                    proof {
                        assert(out@ == prev.push(d));
                        assert(out@ =~= prev + seq![d]);
                    }
                }
                proof {
                    assert(out@ =~= digits_seq_prefix(self@, area@, m + 1));
                    assert forall|v: u16| #[trigger]
                        out@.contains(v) <==> digits_in_prefix(self@, area@, m + 1, v) by {
                        if out@.contains(v) {
                            if prev.contains(v) {
                                assert(digits_in_prefix(self@, area@, m as int, v));
                                assert(digits_in_prefix(self@, area@, m + 1, v));
                            } else {
                                assert(v == d && d != 0);
                                assert(self@.cells[area@[m as int] as int].digit == v);
                                assert(digits_in_prefix(self@, area@, m + 1, v));
                            }
                        }
                        if digits_in_prefix(self@, area@, m + 1, v) {
                            let kk = choose|kk: int|
                                0 <= kk < m + 1 && kk < area@.len() && self@.cells[
                                #[trigger] area@[kk] as int].digit == v && v != 0;
                            if kk < m {
                                assert(digits_in_prefix(self@, area@, m as int, v));
                            } else {
                                assert(v == d);
                            }
                        }
                    }
                }
            }
            m = m + 1;
        }
        out
    }

    /// The exact candidate set of cell `t`, ascending: the values 1..=N
    /// that no peer holds and that the exclusion list does not name.
    pub(crate) fn compute_cell_cands(&self, t: usize) -> (out: Vec<u16>)
        requires
            wf(self@),
            t < self@.cells.len(),
        ensures
            strictly_sorted(out@),
            forall|v: u16| #[trigger] out@.contains(v) <==> cand_ok(self@, t as int, v),
    {
        let n = self.bsize;
        proof {
            assert(wf_cell(self@, t as int));
            assert(self@.cells[t as int].aoe == self.cell@[t as int]@.aoe);
            assert forall|k: int|
                0 <= k < self@.cells[t as int].aoe.len() implies (#[trigger] self@.cells[
            t as int].aoe[k]) < self@.cells.len() by {
                assert(self@.cells[t as int].aoe.contains(self@.cells[t as int].aoe[k]));
            }
        }
        let taken = self.coords_to_digits(&self.cell[t].aoe, false);
        let mut out: Vec<u16> = Vec::new();
        let mut k: usize = 1;
        while k <= n
            invariant
                1 <= k <= n + 1,
                n == self@.bsize,
                forall|v: u16| #[trigger] out@.contains(v) ==> 1 <= v < k,
                strictly_sorted(out@),
                forall|v: u16| #[trigger]
                    out@.contains(v) <==> (v < k && cand_ok(self@, t as int, v)),
            decreases n + 1 - k,
        {
            let kv = k as u16;
            let ghost prev = out@;
            let in_taken = contains_u16(&taken, kv);
            let in_limit = contains_u16(&self.cell[t].cand_limit, kv);
            proof {
                let b = self@;
                let ti = t as int;
                assert(wf_cell(b, ti));
                assert(b.cells.len() < 0xFFFF_FFFF) by (nonlinear_arith)
                    requires
                        b.bsize <= 0xFFFF && b.cells.len() == (b.bsize as int) * (b.bsize as int),
                ;
                if !taken@.contains(kv) && !b.cells[ti].cand_limit.contains(kv) {
                    assert forall|u: int|
                        0 <= u < b.cells.len() && #[trigger] is_peer(
                            b.bsize as int,
                            b.hsize as int,
                            ti,
                            u,
                        ) implies b.cells[u].digit != kv by {
                        if b.cells[u].digit == kv {
                            assert(0 <= u < 0xFFFF_FFFF);
                            assert(u as usize as int == u);
                            assert(b.cells[ti].aoe.contains(u as usize));
                            let kk = choose|kk: int|
                                0 <= kk < b.cells[ti].aoe.len() && (#[trigger] b.cells[ti].aoe[kk])
                                    == u as usize;
                            assert(b.cells[b.cells[ti].aoe[kk] as int].digit == kv && kv != 0);
                            assert(digits_in_prefix(b, b.cells[ti].aoe, b.cells[ti].aoe.len() as int, kv));
                            assert(taken@.contains(kv));
                        }
                    }
                    assert(cand_ok(b, ti, kv));
                }
                if taken@.contains(kv) {
                    let aoe = b.cells[ti].aoe;
                    let kk = choose|kk: int|
                        0 <= kk < aoe.len() && aoe.len() <= aoe.len() && b.cells[
                        #[trigger] aoe[kk] as int].digit == kv && kv != 0;
                    assert(aoe.contains(aoe[kk]));
                    assert(is_peer(b.bsize as int, b.hsize as int, ti, aoe[kk] as int));
                    assert(!cand_ok(b, ti, kv));
                }
            }
            if !in_taken && !in_limit {
                out.push(kv);
                proof {
                    assert(out@ == prev.push(kv));
                    assert forall|i: int, jj: int| 0 <= i < jj < out@.len() implies out@[i]
                        < out@[jj] by {
                        if jj == out@.len() - 1 {
                            assert(prev.contains(prev[i]));
                        }
                    }
                }
            }
            k = k + 1;
        }
        proof {
            assert forall|v: u16| #[trigger]
                out@.contains(v) <==> cand_ok(self@, t as int, v) by {
                if cand_ok(self@, t as int, v) {
                    assert(v <= self@.bsize);
                }
            }
        }
        out
    }

    /// Recompute the candidate sets of every unassigned cell in `t`'s
    /// area-of-effect from the digits now on the board; a cell left with a
    /// single candidate is assigned at once and propagates further. Every
    /// cell that was exact before, and every cell in `t`'s area-of-effect,
    /// is exact afterwards; no cell of `t`'s area-of-effect, and no cell
    /// whose exact candidate set had several entries before, is left
    /// unassigned with a lone candidate; cells that already held a digit
    /// keep their candidate lists untouched; every unassigned cell's list
    /// is either untouched or exactly recomputed; and every cell the
    /// cascade assigns takes exactly its one remaining candidate as its
    /// digit.
    pub fn update_cand(&mut self, t: usize)
        requires
            wf(old(self)@),
            t < old(self)@.cells.len(),
        ensures
            wf(final(self)@),
            same_frame(old(self)@, final(self)@),
            final(self)@.solved == old(self)@.solved,
            final(self)@.last_modified == old(self)@.last_modified,
            digits_monotone(old(self)@, final(self)@),
            unassigned_count(final(self)@.cells) <= unassigned_count(old(self)@.cells),
            consistent(old(self)@) ==> consistent(final(self)@),
            repaired(old(self)@, final(self)@, t as int),
            cascade_settled(old(self)@, final(self)@, t as int),
            forall|x: int|
                0 <= x < old(self)@.cells.len() && old(self)@.cells[x].digit != 0 ==> (
                #[trigger] final(self)@.cells[x]).cand == old(self)@.cells[x].cand,
            forall|x: int|
                0 <= x < old(self)@.cells.len() && old(self)@.cells[x].digit == 0
                    && final(self)@.cells[x].digit != 0 ==> (#[trigger] final(self)@.cells[x]).cand
                    == seq![final(self)@.cells[x].digit],
            forall|x: int|
                0 <= x < old(self)@.cells.len() && final(self)@.cells[x].digit == 0 ==> ((
                #[trigger] final(self)@.cells[x]).cand == old(self)@.cells[x].cand
                    || cell_cands_exact(final(self)@, x)),
            forall|s: Seq<u16>| #[trigger] admits(old(self)@, s) ==> admits(final(self)@, s),
        decreases unassigned_count(self@.cells),
    {
        let ghost orig = self@;
        proof {
            assert(wf_cell(orig, t as int));
            assert(self@.cells[t as int].aoe == self.cell@[t as int]@.aoe);
            lemma_unassigned_count_le(orig.cells, orig.cells);
        }
        let aoe = crate::board::copy_usizes(&self.cell[t].aoe);
        let ghost n = orig.bsize as int;
        let ghost h = orig.hsize as int;
        let mut m: usize = 0;
        while m < aoe.len()
            invariant
                m <= aoe@.len(),
                t < orig.cells.len(),
                aoe@ == orig.cells[t as int].aoe,
                wf(self@),
                same_frame(orig, self@),
                self@.solved == orig.solved,
                self@.last_modified == orig.last_modified,
                digits_monotone(orig, self@),
                unassigned_count(self@.cells) <= unassigned_count(orig.cells),
                consistent(orig) ==> consistent(self@),
                forall|s: Seq<u16>| #[trigger] admits(orig, s) ==> admits(self@, s),
                forall|x: int|
                    0 <= x < self@.cells.len() && (#[trigger] self@.cells[x]).digit == 0 && (
                    cell_cands_exact(orig, x) || (exists|kk: int|
                        0 <= kk < m && (#[trigger] aoe@[kk]) == x)) ==> cell_cands_exact(self@, x),
                forall|x: int|
                    0 <= x < self@.cells.len() && (#[trigger] self@.cells[x]).digit == 0 && ((
                    cell_cands_exact(orig, x) && orig.cells[x].cand.len() != 1) || (exists|kk: int|
                        0 <= kk < m && (#[trigger] aoe@[kk]) == x)) ==> self@.cells[x].cand.len()
                        != 1,
                forall|x: int|
                    0 <= x < orig.cells.len() && orig.cells[x].digit != 0 ==> (
                    #[trigger] self@.cells[x]).cand == orig.cells[x].cand,
                forall|x: int|
                    0 <= x < orig.cells.len() && orig.cells[x].digit == 0 && self@.cells[x].digit
                        != 0 ==> (#[trigger] self@.cells[x]).cand == seq![self@.cells[x].digit],
                forall|x: int|
                    0 <= x < orig.cells.len() && self@.cells[x].digit == 0 ==> ((
                    #[trigger] self@.cells[x]).cand == orig.cells[x].cand || cell_cands_exact(
                        self@,
                        x,
                    )),
            decreases aoe@.len() - m,
        {
            let ghost s0 = self@;
            let u = aoe[m];
            proof {
                assert(aoe@.contains(aoe@[m as int]));
                assert(wf_cell(self@, t as int));
                assert(cell_frame_eq(orig.cells[t as int], self@.cells[t as int]));
                assert(self@.cells[t as int].aoe == aoe@);
                assert(is_peer(n, h, t as int, u as int));
                assert(u < self@.cells.len());
            }
            if self.cell[u].digit == 0 {
                let cands = self.compute_cell_cands(u);
                let ghost s0b = self@;
                self.cell[u].cand = cands;
                let ghost s1 = self@;
                proof {
                    assert(s1.cells.len() == s0.cells.len());
                    assert forall|x: int| 0 <= x < s0.cells.len() && x != u implies s1.cells[x]
                        =~= s0.cells[x] by {}
                    assert(s1.cells[u as int].cand == cands@);
                    assert(s1.cells[u as int].digit == s0.cells[u as int].digit);
                    assert(s1.cells[u as int].cand_limit == s0.cells[u as int].cand_limit);
                    assert(cell_frame_eq(s0.cells[u as int], s1.cells[u as int]));
                    // well-formedness is kept: only one candidate list changed,
                    // and the new list holds admissible values.
                    assert forall|x: int| 0 <= x < s1.cells.len() implies #[trigger] wf_cell(
                        s1,
                        x,
                    ) by {
                        assert(wf_cell(s0, x));
                        if x == u {
                            assert forall|v: u16| #[trigger]
                                s1.cells[x].cand.contains(v) implies 1 <= v
                                <= s1.bsize by {
                                assert(cand_ok(s0b, x, v));
                            }
                        }
                    }
                    // the recomputed cell is exact now.
                    lemma_cand_ok_frame(s0b, s1, u as int);
                    assert(cell_cands_exact(s1, u as int));
                    // every other exact cell stays exact.
                    assert forall|x: int|
                        0 <= x < s1.cells.len() && x != u && cell_cands_exact(
                            s0,
                            x,
                        ) implies cell_cands_exact(s1, x) by {
                        lemma_exactness_frame(s0, s1, x);
                    }
                    assert(consistent(s0) ==> consistent(s1)) by {
                        if consistent(s0) {
                            assert forall|t1: int, t2: int|
                                0 <= t1 < s1.cells.len() && 0 <= t2 < s1.cells.len()
                                    && #[trigger] is_peer(n, h, t1, t2) && s1.cells[t1].digit != 0
                                    && s1.cells[t1].digit == s1.cells[t2].digit implies (!s1.cells[
                            t1].was_empty && !s1.cells[t2].was_empty) by {
                                assert(s0.cells[t1].digit == s1.cells[t1].digit);
                                assert(s0.cells[t2].digit == s1.cells[t2].digit);
                            }
                        }
                    }
                    lemma_unassigned_count_le(s0.cells, s1.cells);
                    lemma_unassigned_count_le(s1.cells, s0.cells);
                    assert forall|x: int|
                        0 <= x < orig.cells.len() implies #[trigger] cell_frame_eq(
                        orig.cells[x],
                        s1.cells[x],
                    ) by {
                        assert(cell_frame_eq(orig.cells[x], s0.cells[x]));
                    }
                    assert forall|x: int|
                        0 <= x < orig.cells.len() implies (#[trigger] s1.cells[x]).cand_limit
                        == orig.cells[x].cand_limit by {
                        assert(s0.cells[x].cand_limit == orig.cells[x].cand_limit);
                        assert(cell_frame_eq(orig.cells[x], s0.cells[x]));
                    }
                    assert(same_frame(orig, s1));
                    assert forall|x: int|
                        0 <= x < orig.cells.len() && orig.cells[x].digit != 0 implies (
                    #[trigger] s1.cells[x].digit) == orig.cells[x].digit by {
                        assert(s0.cells[x].digit == orig.cells[x].digit);
                    }
                    assert(digits_monotone(orig, s1));
                    assert forall|s: Seq<u16>| #[trigger] admits(s0, s) implies admits(s1, s) by {
                        assert forall|x: int|
                            0 <= x < s1.cells.len() && (#[trigger] s1.cells[x]).digit
                                != 0 implies s[x] == s1.cells[x].digit by {
                            assert(s0.cells[x].digit == s1.cells[x].digit);
                        }
                        assert forall|x: int|
                            0 <= x < s1.cells.len() implies !(#[trigger] s1.cells[x]).cand_limit.contains(
                            s[x],
                        ) by {
                            assert(s0.cells[x].cand_limit == s1.cells[x].cand_limit);
                        }
                    }
                    // assigned cells were not recomputed, so their candidate
                    // lists and the committed-single fact carry over.
                    assert forall|x: int|
                        0 <= x < orig.cells.len() && orig.cells[x].digit != 0 implies (
                    #[trigger] s1.cells[x]).cand == orig.cells[x].cand by {
                        assert(s0.cells[x].digit != 0);
                        assert(s0.cells[x].cand == orig.cells[x].cand);
                    }
                    assert forall|x: int|
                        0 <= x < orig.cells.len() && orig.cells[x].digit == 0 && s1.cells[x].digit
                            != 0 implies (#[trigger] s1.cells[x]).cand == seq![
                            s1.cells[x].digit,
                        ] by {
                        assert(s0.cells[x].digit == s1.cells[x].digit);
                        assert(s0.cells[x].digit != 0);
                        assert(x != u as int);
                        assert(s0.cells[x].cand == seq![s0.cells[x].digit]);
                    }
                }
                if self.cell[u].cand.len() == 1 {
                    let d = self.cell[u].cand[0];
                    let ghost s1b = self@;
                    self.cell[u].digit = d;
                    let ghost s2 = self@;
                    proof {
                        assert(s1b == s1);
                        assert(s1.cells[u as int].cand.contains(d));
                        assert(cand_ok(s1, u as int, d));
                        assert(d != 0);
                        assert(s2.cells.len() == s1.cells.len());
                        assert forall|x: int| 0 <= x < s1.cells.len() && x != u implies s2.cells[x]
                            =~= s1.cells[x] by {}
                        assert(s2.cells[u as int].digit == d);
                        assert(s2.cells[u as int].cand == s1.cells[u as int].cand);
                        assert(s2.cells[u as int].cand_limit == s1.cells[u as int].cand_limit);
                        assert(cell_frame_eq(s1.cells[u as int], s2.cells[u as int]));
                        assert forall|x: int| 0 <= x < s2.cells.len() implies #[trigger] wf_cell(
                            s2,
                            x,
                        ) by {
                            assert(wf_cell(s1, x));
                            if x == u {
                                assert(s1.cells[x].digit == 0);
                                assert(s1.cells[x].was_empty);
                            }
                        }
                        // the new digit conflicts with no peer, so the board
                        // stays consistent.
                        assert(consistent(s1) ==> consistent(s2)) by {
                            if consistent(s1) {
                                assert forall|t1: int, t2: int|
                                    0 <= t1 < s2.cells.len() && 0 <= t2 < s2.cells.len()
                                        && #[trigger] is_peer(n, h, t1, t2) && s2.cells[t1].digit
                                        != 0 && s2.cells[t1].digit == s2.cells[t2].digit implies (
                                !s2.cells[t1].was_empty && !s2.cells[t2].was_empty) by {
                                    assert(s1.bsize == orig.bsize && s1.hsize == orig.hsize);
                                    assert(s2.bsize == orig.bsize && s2.hsize == orig.hsize);
                                    assert(is_peer(s1.bsize as int, s1.hsize as int, t1, t2));
                                    if t1 == u as int {
                                        assert(s1.cells[t2].digit != d);
                                        assert(false);
                                    } else if t2 == u as int {
                                        assert(is_peer(s1.bsize as int, s1.hsize as int, u as int, t1));
                                        assert(s1.cells[t1].digit != d);
                                        assert(false);
                                    } else {
                                        assert(s1.cells[t1].digit == s2.cells[t1].digit);
                                        assert(s1.cells[t2].digit == s2.cells[t2].digit);
                                    }
                                }
                            }
                        }
                        lemma_unassigned_count_lt(s1.cells, s2.cells, u as int);
                        lemma_unassigned_count_le(s0.cells, s1.cells);
                        crate::model::lemma_unassigned_count_bounds(s2.cells);
                        crate::model::lemma_unassigned_count_bounds(orig.cells);
                        assert(unassigned_count(s2.cells) < unassigned_count(orig.cells));
                        // an admitted assignment must use the lone candidate
                        // here, so the forced digit loses no completion.
                        assert forall|s: Seq<u16>| #[trigger] admits(s1, s) implies admits(
                            s2,
                            s,
                        ) by {
                            lemma_admitted_value_is_candidate(s1, u as int, s);
                            assert(s1.cells[u as int].cand[0] == d);
                            assert(s[u as int] == d);
                            assert forall|x: int|
                                0 <= x < s2.cells.len() && (#[trigger] s2.cells[x]).digit
                                    != 0 implies s[x] == s2.cells[x].digit by {
                                if x != u {
                                    assert(s1.cells[x].digit == s2.cells[x].digit);
                                }
                            }
                            assert forall|x: int|
                                0 <= x < s2.cells.len() implies !(
                            #[trigger] s2.cells[x]).cand_limit.contains(s[x]) by {
                                assert(s1.cells[x].cand_limit == s2.cells[x].cand_limit);
                            }
                        }
                    }
                    self.update_cand(u);
                    let ghost s3 = self@;
                    proof {
                        // chain the frame and monotonicity facts through the
                        // recursive call.
                        assert forall|x: int|
                            0 <= x < orig.cells.len() implies #[trigger] cell_frame_eq(
                            orig.cells[x],
                            s3.cells[x],
                        ) by {
                            assert(cell_frame_eq(orig.cells[x], s0.cells[x]));
                            assert(cell_frame_eq(s2.cells[x], s3.cells[x]));
                        }
                        assert forall|x: int|
                            0 <= x < orig.cells.len() implies s3.cells[x].cand_limit
                            == orig.cells[x].cand_limit by {
                            assert(s2.cells[x].cand_limit == s3.cells[x].cand_limit);
                        }
                        assert(same_frame(orig, s3));
                        assert forall|x: int|
                            0 <= x < orig.cells.len() && orig.cells[x].digit != 0 implies (
                        #[trigger] s3.cells[x].digit) == orig.cells[x].digit by {
                            assert(s2.cells[x].digit == orig.cells[x].digit);
                            assert(s3.cells[x].digit == s2.cells[x].digit);
                        }
                        lemma_unassigned_count_le(s1.cells, s2.cells);
                        // repair: anything exact at loop entry or processed
                        // so far is exact again after the cascade.
                        assert forall|x: int|
                            0 <= x < s3.cells.len() && (#[trigger] s3.cells[x]).digit == 0 && (
                            cell_cands_exact(orig, x) || (exists|kk: int|
                                0 <= kk < m + 1 && (#[trigger] aoe@[kk])
                                    == x)) implies cell_cands_exact(s3, x) by {
                            assert(s2.cells[x].digit == 0);
                            assert(s1.cells[x].digit == 0);
                            assert(s0.cells[x].digit == 0);
                            assert(x != u as int);
                            if cell_cands_exact(orig, x) || (exists|kk: int|
                                0 <= kk < m && (#[trigger] aoe@[kk]) == x) {
                                assert(cell_cands_exact(s0, x));
                                assert(cell_cands_exact(s1, x));
                                if is_peer(n, h, u as int, x) {
                                    assert(cell_cands_exact(s3, x));
                                } else {
                                    lemma_exactness_frame(s1, s2, x);
                                    assert(cell_cands_exact(s3, x));
                                }
                            } else {
                                let kk = choose|kk: int|
                                    0 <= kk < m + 1 && (#[trigger] aoe@[kk]) == x;
                                assert(kk == m);
                                assert(false);
                            }
                        }
                        // assigned cells keep their candidate lists across
                        // the cascade, and each cascade-assigned cell holds
                        // exactly its lone candidate.
                        assert(s2.cells[u as int].cand =~= seq![d]);
                        assert forall|x: int|
                            0 <= x < orig.cells.len() && orig.cells[x].digit != 0 implies (
                        #[trigger] s3.cells[x]).cand == orig.cells[x].cand by {
                            assert(x != u as int);
                            assert(s1.cells[x].cand == orig.cells[x].cand);
                            assert(s2.cells[x].cand == s1.cells[x].cand);
                            assert(s2.cells[x].digit == orig.cells[x].digit);
                            assert(s3.cells[x].cand == s2.cells[x].cand);
                        }
                        assert forall|x: int|
                            0 <= x < orig.cells.len() && orig.cells[x].digit == 0 && s3.cells[
                        x].digit != 0 implies (#[trigger] s3.cells[x]).cand == seq![
                            s3.cells[x].digit,
                        ] by {
                            if s2.cells[x].digit != 0 {
                                assert(s3.cells[x].cand == s2.cells[x].cand);
                                assert(s3.cells[x].digit == s2.cells[x].digit);
                                if x == u as int {
                                    assert(s2.cells[x].cand == seq![d]);
                                    assert(s2.cells[x].digit == d);
                                } else {
                                    assert(s1.cells[x].digit != 0);
                                    assert(s0.cells[x].digit != 0);
                                    assert(s0.cells[x].cand == seq![s0.cells[x].digit]);
                                    assert(s2.cells[x].cand == s0.cells[x].cand);
                                    assert(s2.cells[x].digit == s0.cells[x].digit);
                                }
                            }
                        }
                        // an unassigned cell's candidates were either never
                        // touched or are exactly recomputed.
                        assert forall|x: int|
                            0 <= x < orig.cells.len() && s3.cells[x].digit == 0 implies ((
                        #[trigger] s3.cells[x]).cand == orig.cells[x].cand || cell_cands_exact(
                            s3,
                            x,
                        )) by {
                            assert(s2.cells[x].digit == 0);
                            assert(s0.cells[x].digit == 0);
                            assert(x != u as int);
                            if is_peer(n, h, u as int, x) {
                                assert(cell_cands_exact(s3, x));
                            } else {
                                if s0.cells[x].cand == orig.cells[x].cand {
                                    assert(s2.cells[x].cand == s0.cells[x].cand);
                                    if !(s3.cells[x].cand == s2.cells[x].cand) {
                                        assert(cell_cands_exact(s3, x));
                                    }
                                } else {
                                    assert(cell_cands_exact(s0, x));
                                    assert(cell_cands_exact(s1, x));
                                    lemma_exactness_frame(s1, s2, x);
                                    assert(cell_cands_exact(s2, x));
                                    assert(cell_cands_exact(s3, x));
                                }
                            }
                        }
                        assert forall|x: int|
                            0 <= x < s3.cells.len() && (#[trigger] s3.cells[x]).digit == 0 && ((
                            cell_cands_exact(orig, x) && orig.cells[x].cand.len() != 1) || (
                            exists|kk: int|
                                0 <= kk < m + 1 && (#[trigger] aoe@[kk]) == x)) implies s3.cells[
                        x].cand.len() != 1 by {
                            assert(s2.cells[x].digit == 0);
                            assert(s1.cells[x].digit == 0);
                            assert(s0.cells[x].digit == 0);
                            assert(x != u as int);
                            if (cell_cands_exact(orig, x) && orig.cells[x].cand.len() != 1) || (
                            exists|kk: int| 0 <= kk < m && (#[trigger] aoe@[kk]) == x) {
                                assert(s0.cells[x].cand.len() != 1);
                                assert(cell_cands_exact(s0, x));
                                assert(cell_cands_exact(s1, x));
                                assert(s1.cells[x].cand == s0.cells[x].cand);
                                if is_peer(n, h, u as int, x) {
                                    assert(cascade_settled(s2, s3, u as int));
                                    assert(s3.cells[x].cand.len() != 1);
                                } else {
                                    lemma_exactness_frame(s1, s2, x);
                                    assert(cell_cands_exact(s2, x));
                                    assert(s2.cells[x].cand.len() != 1);
                                    assert(s3.cells[x].cand.len() != 1);
                                }
                            } else {
                                let kk = choose|kk: int|
                                    0 <= kk < m + 1 && (#[trigger] aoe@[kk]) == x;
                                assert(kk == m);
                                assert(false);
                            }
                        }
                    }
                } else {
                    proof {
                        assert forall|x: int|
                            0 <= x < s1.cells.len() && (#[trigger] s1.cells[x]).digit == 0 && (
                            cell_cands_exact(orig, x) || (exists|kk: int|
                                0 <= kk < m + 1 && (#[trigger] aoe@[kk])
                                    == x)) implies cell_cands_exact(s1, x) by {
                            if x != u as int {
                                if cell_cands_exact(orig, x) || (exists|kk: int|
                                    0 <= kk < m && (#[trigger] aoe@[kk]) == x) {
                                    assert(s0.cells[x].digit == 0);
                                    assert(cell_cands_exact(s0, x));
                                    lemma_exactness_frame(s0, s1, x);
                                } else {
                                    let kk = choose|kk: int|
                                        0 <= kk < m + 1 && (#[trigger] aoe@[kk]) == x;
                                    assert(kk == m);
                                    assert(false);
                                }
                            }
                        }
                        // an unassigned cell's candidates were either never
                        // touched or are exactly recomputed.
                        assert forall|x: int|
                            0 <= x < orig.cells.len() && s1.cells[x].digit == 0 implies ((
                        #[trigger] s1.cells[x]).cand == orig.cells[x].cand || cell_cands_exact(
                            s1,
                            x,
                        )) by {
                            if x == u as int {
                                assert(cell_cands_exact(s1, x));
                            } else {
                                assert(s0.cells[x].digit == 0);
                                assert(s1.cells[x].cand == s0.cells[x].cand);
                                if !(s0.cells[x].cand == orig.cells[x].cand) {
                                    assert(cell_cands_exact(s0, x));
                                    lemma_exactness_frame(s0, s1, x);
                                }
                            }
                        }
                        // nothing was assigned, so no new lone candidates:
                        // the one recomputed cell kept several.
                        assert forall|x: int|
                            0 <= x < s1.cells.len() && (#[trigger] s1.cells[x]).digit == 0 && ((
                            cell_cands_exact(orig, x) && orig.cells[x].cand.len() != 1) || (
                            exists|kk: int|
                                0 <= kk < m + 1 && (#[trigger] aoe@[kk]) == x)) implies s1.cells[
                        x].cand.len() != 1 by {
                            if x == u as int {
                                assert(s1.cells[x].cand.len() != 1);
                            } else if (cell_cands_exact(orig, x) && orig.cells[x].cand.len() != 1)
                                || (exists|kk: int| 0 <= kk < m && (#[trigger] aoe@[kk]) == x) {
                                assert(s0.cells[x].digit == 0);
                                assert(s0.cells[x].cand.len() != 1);
                                assert(s1.cells[x].cand == s0.cells[x].cand);
                            } else {
                                let kk = choose|kk: int|
                                    0 <= kk < m + 1 && (#[trigger] aoe@[kk]) == x;
                                assert(kk == m);
                                assert(x == u as int);
                                assert(false);
                            }
                        }
                    }
                }
            } else {
                proof {
                    assert forall|x: int|
                        0 <= x < self@.cells.len() && (#[trigger] self@.cells[x]).digit == 0 && (
                        cell_cands_exact(orig, x) || (exists|kk: int|
                            0 <= kk < m + 1 && (#[trigger] aoe@[kk])
                                == x)) implies cell_cands_exact(self@, x) by {
                        if !(cell_cands_exact(orig, x) || (exists|kk: int|
                            0 <= kk < m && (#[trigger] aoe@[kk]) == x)) {
                            let kk = choose|kk: int|
                                0 <= kk < m + 1 && (#[trigger] aoe@[kk]) == x;
                            assert(kk == m);
                            assert(x == u as int);
                            assert(false);
                        }
                    }
                    assert forall|x: int|
                        0 <= x < self@.cells.len() && (#[trigger] self@.cells[x]).digit == 0 && ((
                        cell_cands_exact(orig, x) && orig.cells[x].cand.len() != 1) || (
                        exists|kk: int|
                            0 <= kk < m + 1 && (#[trigger] aoe@[kk]) == x)) implies self@.cells[
                    x].cand.len() != 1 by {
                        if !((cell_cands_exact(orig, x) && orig.cells[x].cand.len() != 1) || (
                        exists|kk: int| 0 <= kk < m && (#[trigger] aoe@[kk]) == x)) {
                            let kk = choose|kk: int|
                                0 <= kk < m + 1 && (#[trigger] aoe@[kk]) == x;
                            assert(kk == m);
                            assert(x == u as int);
                            assert(false);
                        }
                    }
                }
            }
            m = m + 1;
        }
        proof {
            // every cell of the area-of-effect was processed, so every peer
            // of `t` is covered.
            assert(orig.cells.len() < 0xFFFF_FFFF) by (nonlinear_arith)
                requires
                    orig.bsize <= 0xFFFF && orig.cells.len() == (orig.bsize as int) * (
                    orig.bsize as int),
            ;
            assert forall|x: int|
                0 <= x < self@.cells.len() && (#[trigger] self@.cells[x]).digit == 0 && (
                cell_cands_exact(orig, x) || is_peer(n, h, t as int, x)) implies cell_cands_exact(
                self@,
                x,
            ) by {
                if is_peer(n, h, t as int, x) && !cell_cands_exact(orig, x) {
                    assert(x < orig.cells.len());
                    assert(x as usize as int == x);
                    assert(aoe@.contains(x as usize));
                    let kk = choose|kk: int| 0 <= kk < aoe@.len() && (#[trigger] aoe@[kk]) == x as usize;
                    assert(aoe@[kk] as int == x);
                }
            }
            assert forall|x: int|
                0 <= x < self@.cells.len() && (#[trigger] self@.cells[x]).digit == 0 && ((
                cell_cands_exact(orig, x) && orig.cells[x].cand.len() != 1) || is_peer(
                    n,
                    h,
                    t as int,
                    x,
                )) implies self@.cells[x].cand.len() != 1 by {
                if is_peer(n, h, t as int, x) && !(cell_cands_exact(orig, x)
                    && orig.cells[x].cand.len() != 1) {
                    assert(x < orig.cells.len());
                    assert(x as usize as int == x);
                    assert(aoe@.contains(x as usize));
                    let kk = choose|kk: int| 0 <= kk < aoe@.len() && (#[trigger] aoe@[kk]) == x as usize;
                    assert(aoe@[kk] as int == x);
                }
            }
            assert(cascade_settled(orig, self@, t as int));
        }
    }

    /// Recompute the candidate set of every unassigned cell from scratch:
    /// the full rescan used after a backtrack, which widens possibilities
    /// in a way no local bound covers. Digits are untouched, assigned
    /// cells' candidate lists are untouched, and afterwards every
    /// unassigned cell is exact.
    pub fn update_all_cand(&mut self)
        requires
            wf(old(self)@),
        ensures
            wf(final(self)@),
            same_frame(old(self)@, final(self)@),
            final(self)@.solved == old(self)@.solved,
            final(self)@.last_modified == old(self)@.last_modified,
            forall|x: int|
                0 <= x < final(self)@.cells.len() ==> (#[trigger] final(self)@.cells[x]).digit
                    == old(self)@.cells[x].digit,
            forall|x: int|
                0 <= x < old(self)@.cells.len() && old(self)@.cells[x].digit != 0 ==> (
                #[trigger] final(self)@.cells[x]).cand == old(self)@.cells[x].cand,
            all_accurate(final(self)@),
            consistent(old(self)@) ==> consistent(final(self)@),
            forall|s: Seq<u16>| #[trigger] admits(old(self)@, s) ==> admits(final(self)@, s),
    {
        let ghost orig = self@;
        let ghost n = orig.bsize as int;
        let ghost h = orig.hsize as int;
        let total = self.cell.len();
        let mut t: usize = 0;
        while t < total
            invariant
                t <= total,
                total == self@.cells.len(),
                wf(self@),
                same_frame(orig, self@),
                self@.solved == orig.solved,
                self@.last_modified == orig.last_modified,
                forall|x: int|
                    0 <= x < orig.cells.len() ==> (#[trigger] self@.cells[x]).digit
                        == orig.cells[x].digit,
                forall|x: int|
                    0 <= x < orig.cells.len() && orig.cells[x].digit != 0 ==> (
                    #[trigger] self@.cells[x]).cand == orig.cells[x].cand,
                forall|x: int| 0 <= x < t ==> #[trigger] accurate(self@, x),
            decreases total - t,
        {
            if self.cell[t].digit == 0 {
                let cands = self.compute_cell_cands(t);
                let ghost s0 = self@;
                self.cell[t].cand = cands;
                let ghost s1 = self@;
                proof {
                    assert(s1.cells.len() == s0.cells.len());
                    assert forall|x: int| 0 <= x < s0.cells.len() && x != t implies s1.cells[x]
                        =~= s0.cells[x] by {}
                    assert(s1.cells[t as int].cand == cands@);
                    assert(cell_frame_eq(s0.cells[t as int], s1.cells[t as int]));
                    assert forall|x: int| 0 <= x < s1.cells.len() implies #[trigger] wf_cell(
                        s1,
                        x,
                    ) by {
                        assert(wf_cell(s0, x));
                        if x == t {
                            assert forall|v: u16| #[trigger]
                                s1.cells[x].cand.contains(v) implies 1 <= v
                                <= s1.bsize by {
                                assert(cand_ok(s0, x, v));
                            }
                        }
                    }
                    lemma_cand_ok_frame(s0, s1, t as int);
                    assert(cell_cands_exact(s1, t as int));
                    assert forall|x: int| 0 <= x < t implies #[trigger] accurate(s1, x) by {
                        assert(accurate(s0, x));
                        if s1.cells[x].digit == 0 {
                            lemma_exactness_frame(s0, s1, x);
                        }
                    }
                    assert forall|x: int|
                        0 <= x < orig.cells.len() implies #[trigger] cell_frame_eq(
                        orig.cells[x],
                        s1.cells[x],
                    ) by {
                        assert(cell_frame_eq(orig.cells[x], s0.cells[x]));
                    }
                    assert forall|x: int|
                        0 <= x < orig.cells.len() implies (#[trigger] s1.cells[x]).cand_limit
                        == orig.cells[x].cand_limit by {
                        assert(s0.cells[x].cand_limit == orig.cells[x].cand_limit);
                        assert(cell_frame_eq(orig.cells[x], s0.cells[x]));
                    }
                    assert(s1.bsize == orig.bsize && s1.hsize == orig.hsize && s1.clues
                        == orig.clues && s1.cells.len() == orig.cells.len());
                    assert(same_frame(orig, s1));
                }
            }
            t = t + 1;
        }
        proof {
            assert forall|x: int| 0 <= x < self@.cells.len() implies #[trigger] accurate(
                self@,
                x,
            ) by {}
            assert(consistent(orig) ==> consistent(self@)) by {
                if consistent(orig) {
                    assert forall|t1: int, t2: int|
                        0 <= t1 < self@.cells.len() && 0 <= t2 < self@.cells.len()
                            && #[trigger] is_peer(n, h, t1, t2) && self@.cells[t1].digit != 0
                            && self@.cells[t1].digit == self@.cells[t2].digit implies (!self@.cells[
                    t1].was_empty && !self@.cells[t2].was_empty) by {
                        assert(cell_frame_eq(orig.cells[t1], self@.cells[t1]));
                        assert(cell_frame_eq(orig.cells[t2], self@.cells[t2]));
                    }
                }
            }
            assert forall|s: Seq<u16>| #[trigger] admits(orig, s) implies admits(self@, s) by {
                assert forall|x: int|
                    0 <= x < self@.cells.len() && (#[trigger] self@.cells[x]).digit != 0 implies s[x]
                    == self@.cells[x].digit by {
                    assert(orig.cells[x].digit == self@.cells[x].digit);
                }
                assert forall|x: int|
                    0 <= x < self@.cells.len() implies !(#[trigger] self@.cells[x]).cand_limit.contains(
                    s[x],
                ) by {
                    assert(cell_frame_eq(orig.cells[x], self@.cells[x]));
                    assert(orig.cells[x].cand_limit == self@.cells[x].cand_limit);
                }
            }
        }
    }
}

} // verus!

//! The elimination engine: find a candidate that is uniquely forced into a
//! cell because its row, its column or its house offers it nowhere else,
//! assign it, propagate, and repeat to a fixpoint.
use vstd::prelude::*;

use crate::board::Board;
use crate::cands::contains_u16;
use crate::model::{
    admits, all_accurate, all_assigned, area_cands_contain, cand_ok, cell_cands_exact,
    cell_frame_eq, consistent, digits_monotone, forced_at, is_peer, lemma_exactness_frame,
    lemma_unassigned_count_le, lemma_unassigned_count_lt, no_forced, repaired, same_frame,
    unassigned_count, wf, wf_cell,
};

verus! {

impl Board {
    /// Set the digit of one unassigned cell; the candidate sets of its
    /// area-of-effect become stale until recomputed.
    pub fn set_digit(&mut self, t: usize, v: u16)
        requires
            wf(old(self)@),
            t < old(self)@.cells.len(),
            old(self)@.cells[t as int].digit == 0,
            1 <= v <= old(self)@.bsize,
        ensures
            wf(final(self)@),
            final(self)@.cells.len() == old(self)@.cells.len(),
            final(self)@.cells[t as int].digit == v,
            final(self)@.cells[t as int].cand == old(self)@.cells[t as int].cand,
            final(self)@.cells[t as int].cand_limit == old(self)@.cells[t as int].cand_limit,
            cell_frame_eq(old(self)@.cells[t as int], final(self)@.cells[t as int]),
            forall|x: int|
                0 <= x < old(self)@.cells.len() && x != t ==> final(self)@.cells[x] == old(
                    self,
                )@.cells[x],
            final(self)@.bsize == old(self)@.bsize,
            final(self)@.hsize == old(self)@.hsize,
            final(self)@.clues == old(self)@.clues,
            final(self)@.solved == old(self)@.solved,
            final(self)@.last_modified == old(self)@.last_modified,
            same_frame(old(self)@, final(self)@),
            digits_monotone(old(self)@, final(self)@),
            unassigned_count(final(self)@.cells) < unassigned_count(old(self)@.cells),
            forall|s: Seq<u16>|
                #[trigger] admits(old(self)@, s) && s[t as int] == v ==> admits(final(self)@, s),
    {
        let ghost pre = self@;
        self.cell[t].digit = v;
        proof {
            assert(self@.cells.len() == pre.cells.len());
            assert forall|x: int| 0 <= x < pre.cells.len() && x != t implies self@.cells[x]
                =~= pre.cells[x] by {}
            assert(self@.cells[t as int].digit == v);
            assert(self@.cells[t as int].cand == pre.cells[t as int].cand);
            assert(self@.cells[t as int].cand_limit == pre.cells[t as int].cand_limit);
            assert(cell_frame_eq(pre.cells[t as int], self@.cells[t as int]));
            assert forall|x: int| 0 <= x < self@.cells.len() implies #[trigger] wf_cell(
                self@,
                x,
            ) by {
                assert(wf_cell(pre, x));
                if x == t {
                    assert(pre.cells[x].was_empty);
                }
            }
            assert forall|x: int|
                0 <= x < pre.cells.len() implies #[trigger] cell_frame_eq(
                pre.cells[x],
                self@.cells[x],
            ) by {}
            assert forall|x: int|
                0 <= x < pre.cells.len() implies (#[trigger] self@.cells[x]).cand_limit
                == pre.cells[x].cand_limit by {}
            assert(same_frame(pre, self@));
            lemma_unassigned_count_lt(pre.cells, self@.cells, t as int);
            assert forall|s: Seq<u16>| #[trigger]
                admits(pre, s) && s[t as int] == v implies admits(self@, s) by {
                assert forall|x: int|
                    0 <= x < self@.cells.len() && (#[trigger] self@.cells[x]).digit != 0 implies s[x]
                    == self@.cells[x].digit by {
                    if x != t {
                        assert(self@.cells[x] == pre.cells[x]);
                    }
                }
                assert forall|x: int|
                    0 <= x < self@.cells.len() implies !(#[trigger] self@.cells[x]).cand_limit.contains(
                    s[x],
                ) by {
                    assert(self@.cells[x].cand_limit == pre.cells[x].cand_limit);
                }
            }
        }
    }

    /// Assign a still-admissible value to an unassigned cell and propagate
    /// locally: afterwards every candidate set is exact again, and the
    /// board stays consistent.
    pub fn place(&mut self, t: usize, v: u16)
        requires
            wf(old(self)@),
            all_accurate(old(self)@),
            t < old(self)@.cells.len(),
            old(self)@.cells[t as int].digit == 0,
            cand_ok(old(self)@, t as int, v),
        ensures
            wf(final(self)@),
            all_accurate(final(self)@),
            same_frame(old(self)@, final(self)@),
            final(self)@.solved == old(self)@.solved,
            final(self)@.last_modified == old(self)@.last_modified,
            digits_monotone(old(self)@, final(self)@),
            final(self)@.cells[t as int].digit == v,
            final(self)@.cells[t as int].cand == old(self)@.cells[t as int].cand,
            final(self)@.cells[t as int].cand.contains(v),
            forall|x: int|
                0 <= x < old(self)@.cells.len() && old(self)@.cells[x].digit != 0 ==> (
                #[trigger] final(self)@.cells[x]).cand == old(self)@.cells[x].cand,
            forall|x: int|
                0 <= x < old(self)@.cells.len() && old(self)@.cells[x].digit == 0 && x != t
                    && final(self)@.cells[x].digit != 0 ==> (#[trigger] final(self)@.cells[x]).cand
                    == seq![final(self)@.cells[x].digit],
            unassigned_count(final(self)@.cells) < unassigned_count(old(self)@.cells),
            consistent(old(self)@) ==> consistent(final(self)@),
            forall|s: Seq<u16>|
                #[trigger] admits(old(self)@, s) && s[t as int] == v ==> admits(final(self)@, s),
    {
        let ghost orig = self@;
        let ghost n = orig.bsize as int;
        let ghost h = orig.hsize as int;
        self.set_digit(t, v);
        let ghost mid = self@;
        proof {
            // the new digit conflicts with no peer.
            assert(consistent(orig) ==> consistent(mid)) by {
                if consistent(orig) {
                    assert forall|t1: int, t2: int|
                        0 <= t1 < mid.cells.len() && 0 <= t2 < mid.cells.len() && #[trigger] is_peer(
                            mid.bsize as int,
                            mid.hsize as int,
                            t1,
                            t2,
                        ) && mid.cells[t1].digit != 0 && mid.cells[t1].digit == mid.cells[t2].digit
                        implies (!mid.cells[t1].was_empty && !mid.cells[t2].was_empty) by {
                        assert(is_peer(n, h, t1, t2));
                        if t1 == t as int {
                            assert(orig.cells[t2].digit != v);
                            assert(false);
                        } else if t2 == t as int {
                            assert(is_peer(n, h, t as int, t1));
                            assert(orig.cells[t1].digit != v);
                            assert(false);
                        } else {
                            assert(orig.cells[t1].digit == mid.cells[t1].digit);
                            assert(orig.cells[t2].digit == mid.cells[t2].digit);
                        }
                    }
                }
            }
        }
        self.update_cand(t);
        proof {
            let fin = self@;
            assert(repaired(mid, fin, t as int));
            assert forall|x: int| 0 <= x < fin.cells.len() implies #[trigger] crate::model::accurate(
                fin,
                x,
            ) by {
                if fin.cells[x].digit == 0 {
                    assert(mid.cells[x].digit == 0);
                    assert(x != t as int);
                    if is_peer(mid.bsize as int, mid.hsize as int, t as int, x) {
                        assert(cell_cands_exact(fin, x));
                    } else {
                        assert(crate::model::accurate(orig, x));
                        assert(orig.cells[x].digit == 0);
                        assert(cell_cands_exact(orig, x));
                        lemma_exactness_frame(orig, mid, x);
                        assert(cell_cands_exact(mid, x));
                        assert(cell_cands_exact(fin, x));
                    }
                }
            }
            assert forall|x: int|
                0 <= x < orig.cells.len() implies #[trigger] cell_frame_eq(
                orig.cells[x],
                fin.cells[x],
            ) by {
                assert(cell_frame_eq(orig.cells[x], mid.cells[x]));
                assert(cell_frame_eq(mid.cells[x], fin.cells[x]));
            }
            assert forall|x: int|
                0 <= x < orig.cells.len() implies (#[trigger] fin.cells[x]).cand_limit
                == orig.cells[x].cand_limit by {
                assert(mid.cells[x].cand_limit == orig.cells[x].cand_limit);
                assert(fin.cells[x].cand_limit == mid.cells[x].cand_limit);
            }
            assert(same_frame(orig, fin));
            assert forall|x: int|
                0 <= x < orig.cells.len() && orig.cells[x].digit != 0 implies (
            #[trigger] fin.cells[x].digit) == orig.cells[x].digit by {
                assert(mid.cells[x].digit == orig.cells[x].digit);
                assert(fin.cells[x].digit == mid.cells[x].digit);
            }
            assert(fin.cells[t as int].digit == v) by {
                assert(mid.cells[t as int].digit == v);
            }
            // candidate lists of already-assigned cells, and of the cell
            // just assigned, are untouched; every cascade-assigned cell
            // holds exactly its lone candidate.
            assert(fin.cells[t as int].cand == orig.cells[t as int].cand) by {
                assert(mid.cells[t as int].digit == v && v != 0);
                assert(fin.cells[t as int].cand == mid.cells[t as int].cand);
                assert(mid.cells[t as int].cand == orig.cells[t as int].cand);
            }
            assert(fin.cells[t as int].cand.contains(v)) by {
                assert(crate::model::accurate(orig, t as int));
                assert(cell_cands_exact(orig, t as int));
                assert(orig.cells[t as int].cand.contains(v));
            }
            assert forall|x: int|
                0 <= x < orig.cells.len() && orig.cells[x].digit != 0 implies (
            #[trigger] fin.cells[x]).cand == orig.cells[x].cand by {
                assert(x != t as int);
                assert(mid.cells[x] == orig.cells[x]);
                assert(mid.cells[x].digit != 0);
                assert(fin.cells[x].cand == mid.cells[x].cand);
            }
            assert forall|x: int|
                0 <= x < orig.cells.len() && orig.cells[x].digit == 0 && x != t as int
                    && fin.cells[x].digit != 0 implies (#[trigger] fin.cells[x]).cand == seq![
                    fin.cells[x].digit,
                ] by {
                assert(mid.cells[x] == orig.cells[x]);
                assert(mid.cells[x].digit == 0);
            }
            assert forall|s: Seq<u16>| #[trigger]
                admits(orig, s) && s[t as int] == v implies admits(fin, s) by {
                assert(admits(mid, s));
            }
        }
    }

    /// The first unassigned cell in row-major order, if any.
    pub fn find_first_unassigned(&self) -> (r: Option<usize>)
        ensures
            r matches Some(t) ==> t < self@.cells.len() && self@.cells[t as int].digit == 0 && (
            forall|x: int| 0 <= x < t ==> (#[trigger] self@.cells[x]).digit != 0),
            r is None ==> all_assigned(self@),
    {
        let mut t: usize = 0;
        while t < self.cell.len()
            invariant
                t <= self@.cells.len(),
                forall|x: int| 0 <= x < t ==> (#[trigger] self@.cells[x]).digit != 0,
            decreases self@.cells.len() - t,
        {
            if self.cell[t].digit == 0 {
                return Some(t);
            }
            t = t + 1;
        }
        None
    }

    /// The first forced assignment in scan order: the first unassigned
    /// cell, in row-major order, holding a candidate (ascending) that its
    /// row, its column or its house offers nowhere else.
    pub fn find_forced(&self) -> (r: Option<(usize, u16)>)
        requires
            wf(self@),
            all_accurate(self@),
        ensures
            r matches Some(p) ==> p.0 < self@.cells.len() && forced_at(self@, p.0 as int, p.1) && (
            forall|x: int, v: u16| 0 <= x < p.0 ==> !#[trigger] forced_at(self@, x, v)) && (
            forall|v: u16| v < p.1 ==> !#[trigger] forced_at(self@, p.0 as int, v)),
            r is None ==> no_forced(self@),
    {
        let mut t: usize = 0;
        while t < self.cell.len()
            invariant
                t <= self@.cells.len(),
                forall|x: int, v: u16| 0 <= x < t ==> !#[trigger] forced_at(self@, x, v),
            decreases self@.cells.len() - t,
        {
            if self.cell[t].digit == 0 {
                proof {
                    assert(wf_cell(self@, t as int));
                    assert(self@.cells[t as int].row == self.cell@[t as int]@.row);
                    assert(self@.cells[t as int].col == self.cell@[t as int]@.col);
                    assert(self@.cells[t as int].house == self.cell@[t as int]@.house);
                    assert forall|k: int|
                        0 <= k < self@.cells[t as int].row.len() implies (#[trigger] self@.cells[
                    t as int].row[k]) < self@.cells.len() by {
                        assert(self@.cells[t as int].row.contains(self@.cells[t as int].row[k]));
                    }
                    assert forall|k: int|
                        0 <= k < self@.cells[t as int].col.len() implies (#[trigger] self@.cells[
                    t as int].col[k]) < self@.cells.len() by {
                        assert(self@.cells[t as int].col.contains(self@.cells[t as int].col[k]));
                    }
                    assert forall|k: int|
                        0 <= k < self@.cells[t as int].house.len() implies (#[trigger] self@.cells[
                    t as int].house[k]) < self@.cells.len() by {
                        assert(self@.cells[t as int].house.contains(
                            self@.cells[t as int].house[k],
                        ));
                    }
                }
                let row_c = self.coords_to_digits(&self.cell[t].row, true);
                let col_c = self.coords_to_digits(&self.cell[t].col, true);
                let house_c = self.coords_to_digits(&self.cell[t].house, true);
                let mut k: usize = 0;
                proof {
                    assert(crate::model::accurate(self@, t as int));
                    assert(cell_cands_exact(self@, t as int));
                }
                while k < self.cell[t].cand.len()
                    invariant
                        t < self@.cells.len(),
                        self@.cells[t as int].digit == 0,
                        cell_cands_exact(self@, t as int),
                        k <= self@.cells[t as int].cand.len(),
                        forall|v: u16| #[trigger]
                            row_c@.contains(v) <==> area_cands_contain(
                                self@,
                                self@.cells[t as int].row,
                                v,
                            ),
                        forall|v: u16| #[trigger]
                            col_c@.contains(v) <==> area_cands_contain(
                                self@,
                                self@.cells[t as int].col,
                                v,
                            ),
                        forall|v: u16| #[trigger]
                            house_c@.contains(v) <==> area_cands_contain(
                                self@,
                                self@.cells[t as int].house,
                                v,
                            ),
                        forall|kk: int|
                            0 <= kk < k ==> !forced_at(
                                self@,
                                t as int,
                                #[trigger] self@.cells[t as int].cand[kk],
                            ),
                    decreases self@.cells[t as int].cand.len() - k,
                {
                    let v = self.cell[t].cand[k];
                    let in_row = contains_u16(&row_c, v);
                    let in_col = contains_u16(&col_c, v);
                    let in_house = contains_u16(&house_c, v);
                    if !in_row || !in_col || !in_house {
                        proof {
                            assert(self@.cells[t as int].cand.contains(v));
                            assert(forced_at(self@, t as int, v));
                            assert forall|v2: u16| v2 < v implies !#[trigger] forced_at(
                                self@,
                                t as int,
                                v2,
                            ) by {
                                if self@.cells[t as int].cand.contains(v2) {
                                    let kk = choose|kk: int|
                                        0 <= kk < self@.cells[t as int].cand.len() && (
                                        #[trigger] self@.cells[t as int].cand[kk]) == v2;
                                    assert(self@.cells[t as int].cand[k as int] == v);
                                    if kk >= k {
                                        assert(kk > k ==> self@.cells[t as int].cand[kk] > v);
                                        assert(false);
                                    }
                                }
                            }
                        }
                        return Some((t, v));
                    }
                    k = k + 1;
                }
                proof {
                    assert forall|v: u16| true implies !#[trigger] forced_at(
                        self@,
                        t as int,
                        v,
                    ) by {
                        if self@.cells[t as int].cand.contains(v) {
                            let kk = choose|kk: int|
                                0 <= kk < self@.cells[t as int].cand.len() && (#[trigger] self@
                                .cells[t as int].cand[kk]) == v;
                            assert(!forced_at(self@, t as int, self@.cells[t as int].cand[kk]));
                        }
                    }
                }
            }
            t = t + 1;
        }
        None
    }

    /// Commit every uniquely forced candidate, in scan order (row-major
    /// cell, ascending candidate), propagating after each assignment and
    /// restarting the scan, until a full pass finds nothing; then record
    /// whether the board is fully assigned.
    pub fn process_of_elimination(&mut self)
        requires
            wf(old(self)@),
            all_accurate(old(self)@),
        ensures
            wf(final(self)@),
            all_accurate(final(self)@),
            same_frame(old(self)@, final(self)@),
            final(self)@.last_modified == old(self)@.last_modified,
            digits_monotone(old(self)@, final(self)@),
            unassigned_count(final(self)@.cells) <= unassigned_count(old(self)@.cells),
            consistent(old(self)@) ==> consistent(final(self)@),
            no_forced(final(self)@),
            final(self)@.solved == all_assigned(final(self)@),
            forall|x: int|
                0 <= x < old(self)@.cells.len() && old(self)@.cells[x].digit != 0 ==> (
                #[trigger] final(self)@.cells[x]).cand == old(self)@.cells[x].cand,
            forall|x: int|
                0 <= x < old(self)@.cells.len() && old(self)@.cells[x].digit == 0
                    && final(self)@.cells[x].digit != 0 ==> (#[trigger] final(self)@.cells[x]).cand.contains(
                    final(self)@.cells[x].digit,
                ),
            forall|s: Seq<u16>| #[trigger] admits(old(self)@, s) ==> admits(final(self)@, s),
    {
        let ghost orig = self@;
        proof {
            lemma_unassigned_count_le(orig.cells, orig.cells);
        }
        let mut changed = true;
        while changed
            invariant
                wf(self@),
                all_accurate(self@),
                same_frame(orig, self@),
                self@.last_modified == orig.last_modified,
                digits_monotone(orig, self@),
                unassigned_count(self@.cells) <= unassigned_count(orig.cells),
                consistent(orig) ==> consistent(self@),
                forall|x: int|
                    0 <= x < orig.cells.len() && orig.cells[x].digit != 0 ==> (
                    #[trigger] self@.cells[x]).cand == orig.cells[x].cand,
                forall|x: int|
                    0 <= x < orig.cells.len() && orig.cells[x].digit == 0 && self@.cells[x].digit
                        != 0 ==> (#[trigger] self@.cells[x]).cand.contains(self@.cells[x].digit),
                forall|s: Seq<u16>| #[trigger] admits(orig, s) ==> admits(self@, s),
                !changed ==> no_forced(self@),
            decreases unassigned_count(self@.cells) + if changed {
                1int
            } else {
                0int
            },
        {
            changed = false;
            proof {
                crate::model::lemma_unassigned_count_bounds(self@.cells);
            }
            let step = self.find_forced();
            match step {
                Some((t, v)) => {
                    let ghost s0 = self@;
                    proof {
                        assert(forced_at(s0, t as int, v));
                        assert(crate::model::accurate(s0, t as int));
                        assert(cell_cands_exact(s0, t as int));
                        assert(cand_ok(s0, t as int, v));
                    }
                    self.place(t, v);
                    changed = true;
                    proof {
                        crate::model::lemma_unassigned_count_bounds(self@.cells);
                        // the forced value is the only one any admitted
                        // assignment can take here, so nothing is lost.
                        assert forall|s: Seq<u16>| #[trigger] admits(s0, s) implies admits(
                            self@,
                            s,
                        ) by {
                            crate::laws::lemma_forced_sound(s0, t as int, v, s);
                        }
                        // candidate lists of assigned cells stay untouched,
                        // and each newly committed digit was one of that
                        // cell's remaining candidates.
                        let s1 = self@;
                        assert forall|x: int|
                            0 <= x < orig.cells.len() && orig.cells[x].digit != 0 implies (
                        #[trigger] s1.cells[x]).cand == orig.cells[x].cand by {
                            assert(s0.cells[x].digit == orig.cells[x].digit);
                            assert(s0.cells[x].cand == orig.cells[x].cand);
                            assert(s1.cells[x].cand == s0.cells[x].cand);
                        }
                        assert forall|x: int|
                            0 <= x < orig.cells.len() && orig.cells[x].digit == 0 && s1.cells[
                        x].digit != 0 implies (#[trigger] s1.cells[x]).cand.contains(
                            s1.cells[x].digit,
                        ) by {
                            if s0.cells[x].digit != 0 {
                                assert(s0.cells[x].cand.contains(s0.cells[x].digit));
                                assert(s1.cells[x].cand == s0.cells[x].cand);
                                assert(s1.cells[x].digit == s0.cells[x].digit);
                            } else if x == t as int {
                                assert(s1.cells[x].digit == v);
                                assert(s1.cells[x].cand.contains(v));
                            } else {
                                assert(s1.cells[x].cand == seq![s1.cells[x].digit]);
                                assert(s1.cells[x].cand[0] == s1.cells[x].digit);
                            }
                        }
                        let s1 = self@;
                        assert forall|x: int|
                            0 <= x < orig.cells.len() implies #[trigger] cell_frame_eq(
                            orig.cells[x],
                            s1.cells[x],
                        ) by {
                            assert(cell_frame_eq(orig.cells[x], s0.cells[x]));
                            assert(cell_frame_eq(s0.cells[x], s1.cells[x]));
                        }
                        assert forall|x: int|
                            0 <= x < orig.cells.len() implies (#[trigger] s1.cells[x]).cand_limit
                            == orig.cells[x].cand_limit by {
                            assert(s0.cells[x].cand_limit == orig.cells[x].cand_limit);
                            assert(s1.cells[x].cand_limit == s0.cells[x].cand_limit);
                        }
                        assert(same_frame(orig, s1));
                        assert forall|x: int|
                            0 <= x < orig.cells.len() && orig.cells[x].digit != 0 implies (
                        #[trigger] s1.cells[x].digit) == orig.cells[x].digit by {
                            assert(s0.cells[x].digit == orig.cells[x].digit);
                            assert(s1.cells[x].digit == s0.cells[x].digit);
                        }
                    }
                },
                None => {},
            }
        }
        let ghost before = self@;
        let r = self.find_first_unassigned();
        let s = match r {
            None => true,
            Some(_) => false,
        };
        self.solved = s;
        proof {
            assert(self@.cells == before.cells);
            assert(self@.clues == before.clues);
            assert(self@.bsize == before.bsize && self@.hsize == before.hsize);
            assert(self@.last_modified == before.last_modified);
            assert forall|x: int| 0 <= x < self@.cells.len() implies #[trigger] wf_cell(
                self@,
                x,
            ) by {
                assert(wf_cell(before, x));
            }
            assert forall|x: int| 0 <= x < self@.cells.len() implies #[trigger] crate::model::accurate(
                self@,
                x,
            ) by {
                assert(crate::model::accurate(before, x));
                if self@.cells[x].digit == 0 {
                    assert(cell_cands_exact(before, x));
                    lemma_exactness_frame(before, self@, x);
                }
            }
            assert(consistent(before) ==> consistent(self@)) by {
                if consistent(before) {
                    assert forall|t1: int, t2: int|
                        0 <= t1 < self@.cells.len() && 0 <= t2 < self@.cells.len()
                            && #[trigger] is_peer(
                            self@.bsize as int,
                            self@.hsize as int,
                            t1,
                            t2,
                        ) && self@.cells[t1].digit != 0 && self@.cells[t1].digit == self@.cells[
                        t2].digit implies (!self@.cells[t1].was_empty
                        && !self@.cells[t2].was_empty) by {
                        assert(is_peer(before.bsize as int, before.hsize as int, t1, t2));
                    }
                }
            }
            assert(no_forced(self@)) by {
                assert forall|t2: int, v2: u16| true implies !#[trigger] forced_at(
                    self@,
                    t2,
                    v2,
                ) by {
                    if forced_at(self@, t2, v2) {
                        assert(forced_at(before, t2, v2));
                    }
                }
            }
            assert forall|s: Seq<u16>| #[trigger] admits(before, s) implies admits(self@, s) by {
                assert(self@.bsize == before.bsize && self@.hsize == before.hsize);
            }
            if r is None {
                assert(all_assigned(self@));
            } else {
                let t0 = r->Some_0;
                assert(before.cells[t0 as int].digit == 0);
                assert(!all_assigned(self@));
            }
        }
    }
}

} // verus!

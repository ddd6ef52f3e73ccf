//! The backtracking controller: a stack of board snapshots, the first
//! unassigned cell tried at its smallest candidate, and on a dead end a pop
//! that permanently excludes the failed digit at the backtrack point. The
//! loop provably terminates: its `decreases` clause is the positional
//! measure over the snapshot stack, which every assignment and every
//! backtrack strictly shrinks.
use vstd::prelude::*;

use crate::board::{flat, lemma_split, Board};
use crate::measure::{
    board_slack, cell_slack, lemma_board_slack_bounds, lemma_board_slack_pointwise_le,
    lemma_board_slack_pointwise_lt, lemma_measure_backtrack, lemma_measure_push, lemma_msum_nonneg,
    lemma_stack_len_bound, lex_positions, search_measure,
};
use crate::model::{
    accurate, admits, all_accurate, all_assigned, cand_ok, cell_cands_exact, cell_frame_eq,
    consistent, flat_grid, is_peer, lemma_cand_ok_frame, lemma_exactness_frame, lemma_excl_room,
    lemma_unassigned_count_bounds, lemma_unassigned_count_le, unassigned_count, wf, wf_cell,
    BoardModel,
};

verus! {

broadcast use vstd::seq_lib::lemma_seq_contains_after_push;

/// The two ways a solve can fail: the input is not an N x N grid with N a
/// perfect square, or the search exhausted every branch.
#[derive(Debug, PartialEq, Eq)]
pub enum SolveError {
    InvalidDimension,
    Unsolvable,
}

/// A well-shaped input: a square count of rows, each as long as there are
/// rows.
pub open spec fn dims_ok(g: Seq<Vec<u16>>) -> bool {
    &&& exists|h: int| 0 <= h && #[trigger] (h * h) == g.len()
    &&& forall|i: int| 0 <= i < g.len() ==> (#[trigger] g[i])@.len() == g.len()
}

/// What holds of every board on the snapshot stack.
pub open spec fn entry_ok(b: BoardModel, n: usize, h: usize, clues: Seq<u16>) -> bool {
    &&& wf(b)
    &&& all_accurate(b)
    &&& consistent(b)
    &&& b.bsize == n
    &&& b.hsize == h
    &&& b.clues == clues
    &&& b.solved == all_assigned(b)
}

/// How a snapshot relates to the one below it: its recorded assignment
/// names a cell the parent leaves blank, with a digit the parent has not
/// excluded, and it has strictly fewer blanks than the parent.
pub open spec fn link_ok(child: BoardModel, parent: BoardModel, n: usize) -> bool {
    let i = child.last_modified.0;
    let j = child.last_modified.1;
    let d = child.last_modified.2;
    &&& i < n
    &&& j < n
    &&& 1 <= d <= n
    &&& parent.cells[i as int * n + j].digit == 0
    &&& !parent.cells[i as int * n + j].cand_limit.contains(d)
    &&& unassigned_count(child.cells) < unassigned_count(parent.cells)
    &&& (forall|s: Seq<u16>|
        #[trigger] admits(parent, s) && s[i as int * n + j] == d ==> admits(child, s))
}

/// The ghost image of the snapshot stack.
pub open spec fn stack_models(s: Seq<Board>) -> Seq<BoardModel> {
    s.map_values(|b: Board| b@)
}

/// The house side of an N x N board: the nonnegative square root of N.
pub open spec fn house_dim(n: int) -> int {
    choose|h: int| 0 <= h && #[trigger] (h * h) == n
}

/// A complete valid assignment of the input grid that keeps every clue.
pub open spec fn solution_of(g: Seq<Vec<u16>>, s: Seq<u16>) -> bool {
    let n = g.len() as int;
    &&& crate::model::full_assignment_ok(n, house_dim(n), s)
    &&& (forall|t: int|
        0 <= t < flat_grid(g, n).len() && (#[trigger] flat_grid(g, n)[t]) != 0 ==> s[t]
            == flat_grid(g, n)[t])
}

/// The nonnegative square root is unique.
proof fn lemma_house_dim_unique(n: int, h: int)
    requires
        h >= 0,
        h * h == n,
    ensures
        house_dim(n) == h,
{
    assert(exists|hh: int| 0 <= hh && #[trigger] (hh * hh) == n);
    let h2 = house_dim(n);
    assert(0 <= h2 && h2 * h2 == n);
    assert(h2 == h) by (nonlinear_arith)
        requires
            h >= 0 && h2 >= 0 && h * h == n && h2 * h2 == n,
    ;
}

/// A well-formed board's slack lies between 0 and N^3.
proof fn lemma_wf_slack_bounds(b: BoardModel)
    requires
        wf(b),
    ensures
        0 <= board_slack(b.cells, b.bsize as int) <= (b.bsize as int) * (b.bsize as int) * (
        b.bsize as int),
{
    let n = b.bsize as int;
    assert forall|i: int| 0 <= i < b.cells.len() implies 0 <= cell_slack(
        #[trigger] b.cells[i],
        n,
    ) <= n by {
        assert(wf_cell(b, i));
    }
    lemma_board_slack_bounds(b.cells, n);
    assert(n * b.cells.len() == n * n * n) by (nonlinear_arith)
        requires
            b.cells.len() == n * n,
    ;
}

impl Board {
    /// The side length of the board.
    pub fn size(&self) -> (r: usize)
        ensures
            r == self@.bsize,
    {
        self.bsize
    }

    /// The side length of one house.
    pub fn house_size(&self) -> (r: usize)
        ensures
            r == self@.hsize,
    {
        self.hsize
    }

    /// Whether the last elimination pass found every cell assigned.
    pub fn is_solved(&self) -> (r: bool)
        ensures
            r == self@.solved,
    {
        self.solved
    }

    /// How many candidates cell `t` currently keeps.
    pub fn candidate_count(&self, t: usize) -> (r: usize)
        requires
            t < self@.cells.len(),
        ensures
            r == self@.cells[t as int].cand.len(),
    {
        self.cell[t].cand.len()
    }

    /// The smallest remaining candidate of cell `t`.
    pub fn first_candidate(&self, t: usize) -> (r: u16)
        requires
            t < self@.cells.len(),
            self@.cells[t as int].cand.len() > 0,
        ensures
            r == self@.cells[t as int].cand[0],
            self@.cells[t as int].cand.contains(r),
    {
        let r = self.cell[t].cand[0];
        proof {
            assert(self@.cells[t as int].cand[0] == r);
        }
        r
    }

    /// Record the tentative assignment about to be tried: the last-modified
    /// marker, and the one-candidate-left flag on the target cell.
    pub fn mark_attempt(&mut self, i: usize, j: usize, d: u16, singleton: bool)
        requires
            wf(old(self)@),
            i < old(self)@.bsize,
            j < old(self)@.bsize,
        ensures
            wf(final(self)@),
            final(self)@.bsize == old(self)@.bsize,
            final(self)@.hsize == old(self)@.hsize,
            final(self)@.clues == old(self)@.clues,
            final(self)@.solved == old(self)@.solved,
            final(self)@.last_modified == (i, j, d),
            final(self)@.cells.len() == old(self)@.cells.len(),
            forall|x: int|
                0 <= x < old(self)@.cells.len() ==> {
                    let c0 = old(self)@.cells[x];
                    let c1 = #[trigger] final(self)@.cells[x];
                    c1.digit == c0.digit && c1.cand == c0.cand && c1.cand_limit == c0.cand_limit
                        && c1.was_empty == c0.was_empty && c1.row == c0.row && c1.col == c0.col
                        && c1.house == c0.house && c1.aoe == c0.aoe
                },
    {
        self.last_modified = (i, j, d);
        if singleton {
            let t = flat(i, j, self.bsize);
            let ghost pre = self@;
            self.cell[t].known = true;
            proof {
                assert forall|x: int| 0 <= x < pre.cells.len() && x != t implies self@.cells[x]
                    =~= pre.cells[x] by {}
                assert(self@.cells[t as int].digit == pre.cells[t as int].digit);
                assert(self@.cells[t as int].cand == pre.cells[t as int].cand);
                assert(self@.cells[t as int].cand_limit == pre.cells[t as int].cand_limit);
                assert(self@.cells[t as int].was_empty == pre.cells[t as int].was_empty);
                assert(self@.cells[t as int].row == pre.cells[t as int].row);
                assert(self@.cells[t as int].col == pre.cells[t as int].col);
                assert(self@.cells[t as int].house == pre.cells[t as int].house);
                assert(self@.cells[t as int].aoe == pre.cells[t as int].aoe);
                assert forall|x: int| 0 <= x < self@.cells.len() implies #[trigger] wf_cell(
                    self@,
                    x,
                ) by {
                    assert(wf_cell(old(self)@, x));
                }
            }
        } else {
            proof {
                assert forall|x: int| 0 <= x < self@.cells.len() implies #[trigger] wf_cell(
                    self@,
                    x,
                ) by {
                    assert(wf_cell(old(self)@, x));
                }
            }
        }
    }

    /// On a backtrack: permanently exclude the digit that failed at the
    /// cell it was tried in, and leave the cell blank.
    pub fn exclude_and_clear(&mut self, t: usize, d: u16)
        requires
            wf(old(self)@),
            t < old(self)@.cells.len(),
            old(self)@.cells[t as int].digit == 0,
            1 <= d <= old(self)@.bsize,
            !old(self)@.cells[t as int].cand_limit.contains(d),
        ensures
            wf(final(self)@),
            final(self)@.bsize == old(self)@.bsize,
            final(self)@.hsize == old(self)@.hsize,
            final(self)@.clues == old(self)@.clues,
            final(self)@.solved == old(self)@.solved,
            final(self)@.last_modified == old(self)@.last_modified,
            final(self)@.cells.len() == old(self)@.cells.len(),
            forall|x: int|
                0 <= x < old(self)@.cells.len() && x != t ==> (#[trigger] final(self)@.cells[x])
                    == old(self)@.cells[x],
            final(self)@.cells[t as int].digit == 0,
            final(self)@.cells[t as int].cand_limit == old(self)@.cells[t as int].cand_limit.push(
                d,
            ),
            final(self)@.cells[t as int].was_empty == old(self)@.cells[t as int].was_empty,
            consistent(old(self)@) ==> consistent(final(self)@),
            forall|s: Seq<u16>|
                #[trigger] admits(old(self)@, s) && s[t as int] != d ==> admits(final(self)@, s),
    {
        let ghost pre = self@;
        self.cell[t].cand_limit.push(d);
        self.cell[t].digit = 0;
        proof {
            let cur = self@;
            assert forall|x: int| 0 <= x < pre.cells.len() && x != t implies cur.cells[x]
                =~= pre.cells[x] by {}
            assert(cur.cells[t as int].cand_limit == pre.cells[t as int].cand_limit.push(d));
            assert(cur.cells[t as int].digit == 0);
            assert(cur.cells[t as int].cand == pre.cells[t as int].cand);
            assert(cur.cells[t as int].was_empty == pre.cells[t as int].was_empty);
            assert(cur.cells[t as int].known == pre.cells[t as int].known);
            assert(cur.cells[t as int].row == pre.cells[t as int].row);
            assert(cur.cells[t as int].col == pre.cells[t as int].col);
            assert(cur.cells[t as int].house == pre.cells[t as int].house);
            assert(cur.cells[t as int].aoe == pre.cells[t as int].aoe);
            let lim = pre.cells[t as int].cand_limit;
            assert(wf_cell(pre, t as int));
            lemma_excl_room(lim, pre.bsize as int, d);
            assert(lim.push(d).no_duplicates()) by {
                assert forall|a: int, b: int|
                    0 <= a < b < lim.push(d).len() implies lim.push(d)[a] != lim.push(d)[b] by {
                    if b == lim.len() as int {
                        assert(lim.contains(lim[a]));
                    }
                }
            }
            assert forall|x: int| 0 <= x < cur.cells.len() implies #[trigger] wf_cell(
                cur,
                x,
            ) by {
                assert(wf_cell(pre, x));
                if x == t {
                    assert forall|v: u16| #[trigger]
                        lim.push(d).contains(v) implies 1 <= v <= cur.bsize by {}
                }
            }
            assert(consistent(pre) ==> consistent(cur)) by {
                if consistent(pre) {
                    assert forall|t1: int, t2: int|
                        0 <= t1 < cur.cells.len() && 0 <= t2 < cur.cells.len() && #[trigger] is_peer(
                            cur.bsize as int,
                            cur.hsize as int,
                            t1,
                            t2,
                        ) && cur.cells[t1].digit != 0 && cur.cells[t1].digit == cur.cells[t2].digit
                        implies (!cur.cells[t1].was_empty && !cur.cells[t2].was_empty) by {
                        assert(is_peer(pre.bsize as int, pre.hsize as int, t1, t2));
                        assert(cur.cells[t1].digit == pre.cells[t1].digit);
                        assert(cur.cells[t2].digit == pre.cells[t2].digit);
                        assert(cur.cells[t1].was_empty == pre.cells[t1].was_empty);
                        assert(cur.cells[t2].was_empty == pre.cells[t2].was_empty);
                    }
                }
            }
        }
    }

    /// The digit of cell (i, j); 0 while unassigned.
    pub fn digit_at(&self, i: usize, j: usize) -> (r: u16)
        requires
            wf(self@),
            i < self@.bsize,
            j < self@.bsize,
        ensures
            r == self@.cells[i as int * self@.bsize + j].digit,
    {
        let t = flat(i, j, self.bsize);
        self.cell[t].digit
    }

    /// Whether cell (i, j) began blank in the input.
    pub fn was_empty_at(&self, i: usize, j: usize) -> (r: bool)
        requires
            wf(self@),
            i < self@.bsize,
            j < self@.bsize,
        ensures
            r == self@.cells[i as int * self@.bsize + j].was_empty,
    {
        let t = flat(i, j, self.bsize);
        self.cell[t].was_empty
    }

    /// Whether cell (i, j) was assigned while it had exactly one candidate
    /// left.
    pub fn known_at(&self, i: usize, j: usize) -> (r: bool)
        requires
            wf(self@),
            i < self@.bsize,
            j < self@.bsize,
        ensures
            r == self@.cells[i as int * self@.bsize + j].known,
    {
        let t = flat(i, j, self.bsize);
        self.cell[t].known
    }

    /// The most recent tentative assignment: (row, column, digit).
    pub fn last_attempt(&self) -> (r: (usize, usize, u16))
        ensures
            r == self@.last_modified,
    {
        self.last_modified
    }

    /// The remaining candidates of cell (i, j), ascending.
    pub fn candidates_at(&self, i: usize, j: usize) -> (r: Vec<u16>)
        requires
            wf(self@),
            i < self@.bsize,
            j < self@.bsize,
        ensures
            r@ == self@.cells[i as int * self@.bsize + j].cand,
    {
        let t = flat(i, j, self.bsize);
        crate::board::copy_u16s(&self.cell[t].cand)
    }

    /// The digits of the whole board as an N x N grid.
    pub fn to_grid(&self) -> (g: Vec<Vec<u16>>)
        requires
            wf(self@),
        ensures
            g@.len() == self@.bsize,
            forall|i: int| 0 <= i < g@.len() ==> (#[trigger] g@[i])@.len() == self@.bsize,
            forall|i: int, j: int|
                0 <= i < self@.bsize as int && 0 <= j < self@.bsize as int
                    ==> (#[trigger] g@[i]@[j]) == self@.cells[i * self@.bsize + j].digit,
    {
        let n = self.bsize;
        let mut g: Vec<Vec<u16>> = Vec::new();
        let mut i: usize = 0;
        while i < n
            invariant
                i <= n,
                n == self@.bsize,
                wf(self@),
                g@.len() == i,
                forall|m: int| 0 <= m < i as int ==> (#[trigger] g@[m])@.len() == n,
                forall|m: int, j: int|
                    0 <= m < i as int && 0 <= j < n as int ==> (#[trigger] g@[m]@[j])
                        == self@.cells[m * n + j].digit,
            decreases n - i,
        {
            let mut row: Vec<u16> = Vec::new();
            let mut j: usize = 0;
            while j < n
                invariant
                    j <= n,
                    i < n,
                    n == self@.bsize,
                    wf(self@),
                    row@.len() == j,
                    forall|m: int| 0 <= m < j as int ==> (#[trigger] row@[m]) == self@.cells[
                        i as int * n + m].digit,
                decreases n - j,
            {
                let d = self.digit_at(i, j);
                row.push(d);
                j = j + 1;
            }
            g.push(row);
            i = i + 1;
        }
        g
    }
}

/// Solve a grid (0 = blank, 1..=N a clue). A grid that is not shaped as an
/// N x N square with N itself a perfect square is rejected before any
/// solving step; a grid whose search space is exhausted is unsolvable;
/// otherwise the returned board is fully assigned, keeps every clue, and no
/// two distinct peers share a digit unless both were clues of the input.
#[verifier::rlimit(100)]
#[verifier::spinoff_prover]
pub fn solve_grid(grid: &Vec<Vec<u16>>) -> (r: Result<Board, SolveError>)
    requires
        grid@.len() <= 0xFFFF,
        forall|i: int, j: int|
            0 <= i < grid@.len() && 0 <= j < grid@[i]@.len() ==> (#[trigger] grid@[i]@[j])
                <= grid@.len(),
    ensures
        r == Err::<Board, SolveError>(SolveError::InvalidDimension) <==> !dims_ok(grid@),
        r matches Ok(b) ==> {
            &&& wf(b@)
            &&& b@.bsize == grid@.len()
            &&& b@.clues == flat_grid(grid@, grid@.len() as int)
            &&& all_assigned(b@)
            &&& consistent(b@)
            &&& b@.solved
        },
        r matches Ok(b) ==> forall|i: int, j: int|
            0 <= i < grid@.len() && 0 <= j < grid@.len() && (#[trigger] grid@[i]@[j]) != 0
                ==> b@.cells[i * grid@.len() + j].digit == grid@[i]@[j],
        r matches Ok(b) ==> forall|t: int|
            0 <= t < b@.cells.len() ==> 1 <= (#[trigger] b@.cells[t]).digit <= grid@.len(),
        r == Err::<Board, SolveError>(SolveError::Unsolvable) ==> forall|s: Seq<u16>|
            !solution_of(grid@, s),
{
    let n = grid.len();
    let mut first = Board::new(n);
    let h = first.house_size();

    // Reject anything that is not an N x N grid with N a perfect square,
    // before any solving step.
    if h * h != n {
        proof {
            assert forall|h2: int| 0 <= h2 implies #[trigger] (h2 * h2) != n as int by {
                if h2 <= h {
                    assert(h2 * h2 <= h * h) by (nonlinear_arith)
                        requires
                            0 <= h2 <= h,
                    ;
                } else {
                    assert(h2 * h2 >= (h + 1) * (h + 1)) by (nonlinear_arith)
                        requires
                            h2 >= h + 1 >= 1,
                    ;
                }
            }
        }
        return Err(SolveError::InvalidDimension);
    }
    let mut i: usize = 0;
    while i < n
        invariant
            i <= n,
            n == grid@.len(),
            forall|m: int| 0 <= m < i ==> (#[trigger] grid@[m])@.len() == n,
        decreases n - i,
    {
        if grid[i].len() != n {
            return Err(SolveError::InvalidDimension);
        }
        i = i + 1;
    }
    proof {
        assert(h as int * h as int == n as int);
        assert(dims_ok(grid@));
    }

    first.init(grid);
    let ghost b_init = first@;
    proof {
        // a fresh board is consistent: its digits are its clues, so a
        // conflicting pair can only be a pair of clues, which the
        // exception allows.
        let b0 = first@;
        assert(consistent(b0)) by {
            assert forall|t1: int, t2: int|
                0 <= t1 < b0.cells.len() && 0 <= t2 < b0.cells.len() && #[trigger] is_peer(
                    b0.bsize as int,
                    b0.hsize as int,
                    t1,
                    t2,
                ) && b0.cells[t1].digit != 0 && b0.cells[t1].digit == b0.cells[t2].digit implies (
            !b0.cells[t1].was_empty && !b0.cells[t2].was_empty) by {
                assert(wf_cell(b0, t1));
                assert(wf_cell(b0, t2));
            }
        }
    }
    first.update_all_cand();
    first.process_of_elimination();
    let ghost clues = first@.clues;
    proof {
        assert(entry_ok(first@, n, h, clues));
        lemma_house_dim_unique(n as int, h as int);
        // every solution of the clues is admitted by the initial,
        // propagated board: its digits are the clues and nothing is
        // excluded yet.
        assert forall|s: Seq<u16>| #[trigger] solution_of(grid@, s) implies admits(
            first@,
            s,
        ) by {
            assert(crate::model::full_assignment_ok(n as int, h as int, s));
            assert forall|t: int|
                0 <= t < b_init.cells.len() && (#[trigger] b_init.cells[t]).digit != 0 implies s[t]
                == b_init.cells[t].digit by {
                assert(b_init.cells[t].digit == b_init.clues[t]);
                assert(flat_grid(grid@, n as int)[t] == b_init.clues[t]);
            }
            assert forall|t: int|
                0 <= t < b_init.cells.len() implies !(
            #[trigger] b_init.cells[t]).cand_limit.contains(s[t]) by {
                assert(b_init.cells[t].cand_limit.len() == 0);
            }
            assert(admits(b_init, s));
        }
    }

    let ghost f0 = first@;
    let mut stack: Vec<Board> = Vec::new();
    stack.push(first);
    proof {
        assert forall|s: Seq<u16>| #[trigger] solution_of(grid@, s) implies exists|k: int|
            0 <= k < stack@.len() && #[trigger] admits(stack@[k]@, s) by {
            assert(stack@[0]@ == f0);
            assert(admits(stack@[0]@, s));
        }
    }

    loop
        invariant
            n == grid@.len(),
            n <= 0xFFFF,
            h as int * h as int == n as int,
            clues == flat_grid(grid@, n as int),
            stack@.len() >= 1,
            forall|k: int| 0 <= k < stack@.len() ==> entry_ok((#[trigger] stack@[k])@, n, h, clues),
            forall|k: int|
                1 <= k < stack@.len() ==> link_ok((#[trigger] stack@[k])@, stack@[k - 1]@, n),
            forall|s: Seq<u16>|
                #[trigger] solution_of(grid@, s) ==> exists|k: int|
                    0 <= k < stack@.len() && #[trigger] admits(stack@[k]@, s),
        decreases search_measure(stack_models(stack@), n as int),
    {
        let top_idx = stack.len() - 1;
        proof {
            assert(entry_ok(stack@[top_idx as int]@, n, h, clues));
        }
        if stack[top_idx].is_solved() {
            let out = stack[top_idx].snapshot();
            proof {
                let b = out@;
                assert(all_assigned(b));
                assert forall|ii: int, jj: int|
                    0 <= ii < grid@.len() && 0 <= jj < grid@.len() && (#[trigger] grid@[ii]@[jj])
                        != 0 implies b.cells[ii * grid@.len() + jj].digit == grid@[ii]@[jj] by {
                    crate::board::lemma_flat_facts(n as int, ii, jj);
                    let t = ii * grid@.len() + jj;
                    assert(wf_cell(b, t));
                    assert(b.clues[t] == flat_grid(grid@, n as int)[t]);
                    assert(!b.cells[t].was_empty);
                }
                assert forall|t: int|
                    0 <= t < b.cells.len() implies 1 <= (#[trigger] b.cells[t]).digit
                    <= grid@.len() by {
                    assert(wf_cell(b, t));
                }
            }
            return Ok(out);
        }
        let ff = stack[top_idx].find_first_unassigned();
        match ff {
            None => {
                proof {
                    assert(all_assigned(stack@[top_idx as int]@));
                    assert(false);
                }
                return Err(SolveError::Unsolvable);
            },
            Some(t) => {
                proof {
                    assert(stack@[top_idx as int]@.cells[t as int].digit == 0);
                    assert(n as int * n as int > 0);
                    assert(n > 0);
                }
                if stack[top_idx].candidate_count(t) > 0 {
                    // ASSIGN: try the smallest candidate of the first
                    // unassigned cell on a fresh snapshot.
                    let ghost top0 = stack@[top_idx as int]@;
                    let ghost prev_stack = stack@;
                    let ghost models0 = stack_models(stack@);
                    let singleton = stack[top_idx].candidate_count(t) == 1;
                    let mut w = stack[top_idx].snapshot();
                    let d = w.first_candidate(t);
                    proof {
                        assert(accurate(top0, t as int));
                        assert(cell_cands_exact(top0, t as int));
                        assert(cand_ok(top0, t as int, d));
                    }
                    let i = t / n;
                    let j = t % n;
                    proof {
                        lemma_split(n as int, t as int);
                        assert(i as int * n + j == t);
                    }
                    w.mark_attempt(i, j, d, singleton);
                    let ghost w_pre = w@;
                    proof {
                        lemma_cand_ok_frame(top0, w_pre, t as int);
                        assert(cand_ok(w_pre, t as int, d));
                        assert forall|x: int| 0 <= x < w_pre.cells.len() implies #[trigger] accurate(
                            w_pre,
                            x,
                        ) by {
                            assert(accurate(top0, x));
                            if w_pre.cells[x].digit == 0 {
                                assert(top0.cells[x].digit == 0);
                                lemma_exactness_frame(top0, w_pre, x);
                            }
                        }
                        assert(consistent(w_pre)) by {
                            assert forall|t1: int, t2: int|
                                0 <= t1 < w_pre.cells.len() && 0 <= t2 < w_pre.cells.len()
                                    && #[trigger] is_peer(
                                    w_pre.bsize as int,
                                    w_pre.hsize as int,
                                    t1,
                                    t2,
                                ) && w_pre.cells[t1].digit != 0 && w_pre.cells[t1].digit
                                    == w_pre.cells[t2].digit implies (!w_pre.cells[t1].was_empty
                                && !w_pre.cells[t2].was_empty) by {
                                assert(is_peer(top0.bsize as int, top0.hsize as int, t1, t2));
                                assert(top0.cells[t1].digit == w_pre.cells[t1].digit);
                                assert(top0.cells[t2].digit == w_pre.cells[t2].digit);
                                assert(top0.cells[t1].was_empty == w_pre.cells[t1].was_empty);
                                assert(top0.cells[t2].was_empty == w_pre.cells[t2].was_empty);
                            }
                        }
                        lemma_unassigned_count_le(top0.cells, w_pre.cells);
                        lemma_unassigned_count_le(w_pre.cells, top0.cells);
                    }
                    w.place(t, d);
                    let ghost w_mid = w@;
                    w.process_of_elimination();
                    let ghost w_fin = w@;
                    proof {
                        lemma_unassigned_count_le(w_mid.cells, w_fin.cells);
                        assert(unassigned_count(w_fin.cells) < unassigned_count(top0.cells));
                    }
                    stack.push(w);
                    proof {
                        let models1 = stack_models(stack@);
                        let len0 = models0.len() as int;
                        assert(models1 =~= models0.push(w_fin));
                        assert forall|k: int|
                            0 <= k < stack@.len() implies entry_ok(
                            (#[trigger] stack@[k])@,
                            n,
                            h,
                            clues,
                        ) by {
                            if k < len0 {
                                assert(stack@[k] == prev_stack[k]);
                                assert(entry_ok(prev_stack[k]@, n, h, clues));
                            }
                        }
                        assert forall|k: int|
                            1 <= k < stack@.len() implies link_ok(
                            (#[trigger] stack@[k])@,
                            stack@[k - 1]@,
                            n,
                        ) by {
                            if k < len0 {
                                assert(stack@[k] == prev_stack[k]);
                                assert(stack@[k - 1] == prev_stack[k - 1]);
                                assert(link_ok(prev_stack[k]@, prev_stack[k - 1]@, n));
                            } else {
                                assert(stack@[k]@ == w_fin);
                                assert(stack@[k - 1] == prev_stack[k - 1]);
                                assert(w_fin.last_modified == (i, j, d));
                                assert(top0.cells[t as int].digit == 0);
                                assert(!top0.cells[t as int].cand_limit.contains(d));
                                assert forall|s: Seq<u16>| #[trigger]
                                    admits(top0, s) && s[i as int * n + j] == d implies admits(
                                    w_fin,
                                    s,
                                ) by {
                                    assert(i as int * n + j == t);
                                    assert(admits(w_pre, s)) by {
                                        assert forall|x: int|
                                            0 <= x < w_pre.cells.len() && (
                                            #[trigger] w_pre.cells[x]).digit != 0 implies s[x]
                                            == w_pre.cells[x].digit by {
                                            assert(top0.cells[x].digit == w_pre.cells[x].digit);
                                        }
                                        assert forall|x: int|
                                            0 <= x < w_pre.cells.len() implies !(
                                        #[trigger] w_pre.cells[x]).cand_limit.contains(s[x]) by {
                                            assert(top0.cells[x].cand_limit == w_pre.cells[
                                            x].cand_limit);
                                        }
                                    }
                                    assert(admits(w_mid, s));
                                    assert(admits(w_fin, s));
                                }
                            }
                        }
                        // no solution is lost by trying this digit here:
                        // every admitted assignment keeps its witness.
                        assert forall|s: Seq<u16>| #[trigger]
                            solution_of(grid@, s) implies exists|k: int|
                            0 <= k < stack@.len() && #[trigger] admits(stack@[k]@, s) by {
                            let k = choose|k: int|
                                0 <= k < prev_stack.len() && #[trigger] admits(prev_stack[k]@, s);
                            assert(stack@[k] == prev_stack[k]);
                            assert(admits(stack@[k]@, s));
                        }
                        // the measure shrinks: a digit below the sentinel
                        // appears at a fresh level.
                        assert forall|k: int|
                            1 <= k < models0.len() implies unassigned_count(
                            (#[trigger] models0[k]).cells,
                        ) < unassigned_count(models0[k - 1].cells) by {
                            assert(models0[k] == prev_stack[k]@);
                            assert(models0[k - 1] == prev_stack[k - 1]@);
                            assert(link_ok(prev_stack[k]@, prev_stack[k - 1]@, n));
                        }
                        lemma_stack_len_bound(models0, n as int, models0.len() - 1);
                        assert(models0[0] == prev_stack[0]@);
                        lemma_unassigned_count_bounds(prev_stack[0]@.cells);
                        assert(wf(prev_stack[0]@));
                        assert(prev_stack[0]@.cells.len() == n as int * n as int);
                        assert(models0[models0.len() - 1] == prev_stack[models0.len() - 1]@);
                        lemma_unassigned_count_bounds(prev_stack[models0.len() - 1]@.cells);
                        assert(models0.len() < lex_positions(n as int));
                        lemma_wf_slack_bounds(w_fin);
                        assert forall|k: int|
                            0 <= k < models0.len() implies 0 <= board_slack(
                            (#[trigger] models0[k]).cells,
                            n as int,
                        ) by {
                            assert(models0[k] == prev_stack[k]@);
                            lemma_wf_slack_bounds(prev_stack[k]@);
                        }
                        lemma_measure_push(models0, w_fin, n as int);
                        assert forall|jj: int|
                            0 <= jj < models1.len() implies 0 <= board_slack(
                            (#[trigger] models1[jj]).cells,
                            n as int,
                        ) by {
                            assert(models1[jj] == stack@[jj]@);
                            lemma_wf_slack_bounds(stack@[jj]@);
                        }
                        lemma_msum_nonneg(models1, 0, n as int);
                    }
                } else {
                    // BACKTRACK: the first unassigned cell has no candidate
                    // left, so the board on top admits no completion at all.
                    let ghost prev_stack = stack@;
                    let ghost len0 = prev_stack.len() as int;
                    proof {
                        assert forall|s: Seq<u16>| #[trigger]
                            admits(prev_stack[len0 - 1]@, s) implies false by {
                            let top_b = prev_stack[len0 - 1]@;
                            assert(accurate(top_b, t as int));
                            assert(cell_cands_exact(top_b, t as int));
                            crate::model::lemma_admitted_value_is_candidate(top_b, t as int, s);
                            assert(top_b.cells[t as int].cand.len() == 0);
                        }
                    }
                    if stack.len() == 1 {
                        proof {
                            // the only snapshot left is the initial board;
                            // nothing it admits exists, so the clues have
                            // no solution.
                            assert forall|s: Seq<u16>| true implies !#[trigger] solution_of(
                                grid@,
                                s,
                            ) by {
                                if solution_of(grid@, s) {
                                    let k = choose|k: int|
                                        0 <= k < prev_stack.len() && #[trigger] admits(
                                            prev_stack[k]@,
                                            s,
                                        );
                                    assert(k == len0 - 1);
                                }
                            }
                        }
                        return Err(SolveError::Unsolvable);
                    }
                    let ghost models0 = stack_models(stack@);
                    let popped = match stack.pop() {
                        Some(p) => p,
                        None => vstd::pervasive::unreached(),
                    };
                    let lm = popped.last_modified;
                    let pi = lm.0;
                    let pj = lm.1;
                    let pd = lm.2;
                    let mut tb = match stack.pop() {
                        Some(p) => p,
                        None => vstd::pervasive::unreached(),
                    };
                    let ghost t_old = tb@;
                    proof {
                        assert(popped@ == prev_stack[len0 - 1]@);
                        assert(t_old == prev_stack[len0 - 2]@);
                        assert(link_ok(popped@, t_old, n));
                        assert(stack@ =~= prev_stack.subrange(0, len0 - 2));
                    }
                    let pt = flat(pi, pj, n);
                    tb.exclude_and_clear(pt, pd);
                    let ghost ta = tb@;
                    tb.update_all_cand();
                    let ghost tm = tb@;
                    tb.process_of_elimination();
                    let ghost tb_fin = tb@;
                    proof {
                        // slack strictly dropped at the backtrack cell and
                        // nowhere grew.
                        assert forall|x: int|
                            0 <= x < t_old.cells.len() implies cell_slack(
                            #[trigger] ta.cells[x],
                            n as int,
                        ) <= cell_slack(t_old.cells[x], n as int) by {
                            assert(wf_cell(t_old, x));
                        }
                        assert(cell_slack(ta.cells[pt as int], n as int) < cell_slack(
                            t_old.cells[pt as int],
                            n as int,
                        ));
                        lemma_board_slack_pointwise_lt(t_old.cells, ta.cells, n as int, pt as int);
                        assert forall|x: int|
                            0 <= x < ta.cells.len() implies cell_slack(
                            #[trigger] tm.cells[x],
                            n as int,
                        ) <= cell_slack(ta.cells[x], n as int) && cell_slack(ta.cells[x], n as int)
                            <= cell_slack(tm.cells[x], n as int) by {
                            assert(tm.cells[x].digit == ta.cells[x].digit);
                            assert(cell_frame_eq(ta.cells[x], tm.cells[x]));
                        }
                        lemma_board_slack_pointwise_le(ta.cells, tm.cells, n as int);
                        lemma_board_slack_pointwise_le(tm.cells, ta.cells, n as int);
                        assert forall|x: int|
                            0 <= x < tm.cells.len() implies cell_slack(
                            #[trigger] tb_fin.cells[x],
                            n as int,
                        ) <= cell_slack(tm.cells[x], n as int) by {
                            assert(cell_frame_eq(tm.cells[x], tb_fin.cells[x]));
                            assert(wf_cell(tm, x));
                            if tm.cells[x].digit != 0 {
                                assert(tb_fin.cells[x].digit == tm.cells[x].digit);
                            }
                        }
                        lemma_board_slack_pointwise_le(tm.cells, tb_fin.cells, n as int);
                        assert(board_slack(tb_fin.cells, n as int) < board_slack(
                            t_old.cells,
                            n as int,
                        ));
                        // blanks never increased on the way.
                        assert forall|x: int|
                            0 <= x < ta.cells.len() && (#[trigger] tm.cells[x]).digit == 0 implies
                            ta.cells[x].digit == 0 by {}
                        lemma_unassigned_count_le(ta.cells, tm.cells);
                        lemma_unassigned_count_le(tm.cells, tb_fin.cells);
                        assert forall|x: int|
                            0 <= x < t_old.cells.len() && (#[trigger] ta.cells[x]).digit
                                == 0 implies t_old.cells[x].digit == 0 by {}
                        lemma_unassigned_count_le(t_old.cells, ta.cells);
                        assert(unassigned_count(tb_fin.cells) <= unassigned_count(t_old.cells));
                    }
                    stack.push(tb);
                    proof {
                        let models1 = stack_models(stack@);
                        assert(models1 =~= models0.subrange(0, len0 - 2).push(tb_fin));
                        assert forall|k: int|
                            0 <= k < stack@.len() implies entry_ok(
                            (#[trigger] stack@[k])@,
                            n,
                            h,
                            clues,
                        ) by {
                            if k < len0 - 2 {
                                assert(stack@[k] == prev_stack[k]);
                                assert(entry_ok(prev_stack[k]@, n, h, clues));
                            } else {
                                assert(stack@[k]@ == tb_fin);
                            }
                        }
                        assert forall|k: int|
                            1 <= k < stack@.len() implies link_ok(
                            (#[trigger] stack@[k])@,
                            stack@[k - 1]@,
                            n,
                        ) by {
                            assert(stack@[k - 1] == prev_stack[k - 1]);
                            if k < len0 - 2 {
                                assert(stack@[k] == prev_stack[k]);
                                assert(link_ok(prev_stack[k]@, prev_stack[k - 1]@, n));
                            } else {
                                assert(k == len0 - 2);
                                assert(stack@[k]@ == tb_fin);
                                assert(tb_fin.last_modified == t_old.last_modified);
                                assert(link_ok(t_old, prev_stack[k - 1]@, n));
                                assert(unassigned_count(tb_fin.cells) < unassigned_count(
                                    prev_stack[k - 1]@.cells,
                                ));
                                let lm2 = t_old.last_modified;
                                assert forall|s: Seq<u16>| #[trigger]
                                    admits(prev_stack[k - 1]@, s) && s[lm2.0 as int * n + lm2.1]
                                        == lm2.2 implies admits(tb_fin, s) by {
                                    assert(admits(t_old, s));
                                    assert(s[pt as int] != pd) by {
                                        if s[pt as int] == pd {
                                            assert(admits(popped@, s));
                                        }
                                    }
                                    assert(admits(ta, s));
                                    assert(admits(tm, s));
                                }
                            }
                        }
                        // no solution is lost by giving up this digit: any
                        // completion using it would have to extend the
                        // dead-ended snapshot.
                        assert forall|s: Seq<u16>| #[trigger]
                            solution_of(grid@, s) implies exists|k: int|
                            0 <= k < stack@.len() && #[trigger] admits(stack@[k]@, s) by {
                            let k = choose|k: int|
                                0 <= k < prev_stack.len() && #[trigger] admits(prev_stack[k]@, s);
                            if k < len0 - 2 {
                                assert(stack@[k] == prev_stack[k]);
                                assert(admits(stack@[k]@, s));
                            } else if k == len0 - 2 {
                                assert(admits(t_old, s));
                                assert(s[pt as int] != pd) by {
                                    if s[pt as int] == pd {
                                        assert(link_ok(popped@, t_old, n));
                                        assert(admits(popped@, s));
                                    }
                                }
                                assert(admits(ta, s));
                                assert(admits(tm, s));
                                assert(admits(tb_fin, s));
                                assert(stack@[len0 - 2]@ == tb_fin);
                                assert(admits(stack@[len0 - 2]@, s));
                            } else {
                                assert(k == len0 - 1);
                                assert(admits(popped@, s));
                            }
                        }
                        // the measure shrinks: the level we return to lost
                        // one unit of slack for good.
                        assert forall|k: int|
                            0 <= k < models0.len() implies 0 <= board_slack(
                            (#[trigger] models0[k]).cells,
                            n as int,
                        ) <= n as int * n as int * n as int by {
                            assert(models0[k] == prev_stack[k]@);
                            lemma_wf_slack_bounds(prev_stack[k]@);
                        }
                        assert forall|k: int|
                            1 <= k < models0.len() implies unassigned_count(
                            (#[trigger] models0[k]).cells,
                        ) < unassigned_count(models0[k - 1].cells) by {
                            assert(models0[k] == prev_stack[k]@);
                            assert(models0[k - 1] == prev_stack[k - 1]@);
                            assert(link_ok(prev_stack[k]@, prev_stack[k - 1]@, n));
                        }
                        assert forall|k: int|
                            0 <= k < models0.len() implies 0 <= unassigned_count(
                            (#[trigger] models0[k]).cells,
                        ) <= n as int * n as int by {
                            lemma_unassigned_count_bounds(models0[k].cells);
                            assert(models0[k] == prev_stack[k]@);
                            assert(wf(prev_stack[k]@));
                        }
                        lemma_stack_len_bound(models0, n as int, models0.len() - 1);
                        assert(models0[0] == prev_stack[0]@);
                        lemma_unassigned_count_bounds(prev_stack[0]@.cells);
                        assert(wf(prev_stack[0]@));
                        assert(prev_stack[0]@.cells.len() == n as int * n as int);
                        assert(models0[models0.len() - 1] == prev_stack[models0.len() - 1]@);
                        lemma_unassigned_count_bounds(prev_stack[models0.len() - 1]@.cells);
                        assert(models0.len() <= lex_positions(n as int));
                        lemma_wf_slack_bounds(tb_fin);
                        assert(models0[len0 - 2] == t_old);
                        lemma_measure_backtrack(models0, tb_fin, n as int);
                        assert forall|jj: int|
                            0 <= jj < models1.len() implies 0 <= board_slack(
                            (#[trigger] models1[jj]).cells,
                            n as int,
                        ) by {
                            assert(models1[jj] == stack@[jj]@);
                            lemma_wf_slack_bounds(stack@[jj]@);
                        }
                        lemma_msum_nonneg(models1, 0, n as int);
                    }
                }
            },
        }
    }
}

} // verus!

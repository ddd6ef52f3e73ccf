//! The termination measure of the backtracking search. The snapshot stack
//! is read as a number in a positional system: each stack level contributes
//! one digit, namely that board's remaining slack (the exclusion capacity
//! of its unassigned cells), and levels past the top contribute a sentinel
//! digit larger than any slack. A tentative assignment writes a digit below
//! the sentinel at a fresh position; a backtrack lowers the digit of the
//! position it returns to; both shrink the number, so the search ends.
use vstd::prelude::*;

use vstd::arithmetic::mul::lemma_mul_inequality;
use vstd::arithmetic::power::{lemma_pow_positive, pow};

use crate::model::{unassigned_count, BoardModel, CellModel};

verus! {

/// How many more values may still be excluded at an unassigned cell.
pub open spec fn cell_slack(c: CellModel, n: int) -> int {
    if c.digit != 0 {
        0
    } else {
        n - c.cand_limit.len()
    }
}

/// The board's total remaining slack.
pub open spec fn board_slack(cells: Seq<CellModel>, n: int) -> int
    decreases cells.len(),
{
    if cells.len() == 0 {
        0
    } else {
        board_slack(cells.drop_last(), n) + cell_slack(cells.last(), n)
    }
}

pub proof fn lemma_board_slack_bounds(cells: Seq<CellModel>, n: int)
    requires
        forall|i: int| 0 <= i < cells.len() ==> 0 <= cell_slack(#[trigger] cells[i], n) <= n,
    ensures
        0 <= board_slack(cells, n) <= n * cells.len(),
    decreases cells.len(),
{
    if cells.len() > 0 {
        lemma_board_slack_bounds(cells.drop_last(), n);
        assert(n * cells.len() == n * (cells.len() - 1) + n) by (nonlinear_arith);
    } else {
        assert(n * cells.len() == 0) by (nonlinear_arith)
            requires
                cells.len() == 0,
        ;
    }
}

/// Slack never grows when digits are only added and exclusion lists are
/// compared pointwise.
pub proof fn lemma_board_slack_pointwise_le(a: Seq<CellModel>, b: Seq<CellModel>, n: int)
    requires
        a.len() == b.len(),
        forall|i: int| 0 <= i < a.len() ==> cell_slack(#[trigger] b[i], n) <= cell_slack(a[i], n),
    ensures
        board_slack(b, n) <= board_slack(a, n),
    decreases a.len(),
{
    if a.len() > 0 {
        lemma_board_slack_pointwise_le(a.drop_last(), b.drop_last(), n);
    }
}

pub proof fn lemma_board_slack_pointwise_lt(a: Seq<CellModel>, b: Seq<CellModel>, n: int, i0: int)
    requires
        a.len() == b.len(),
        forall|i: int| 0 <= i < a.len() ==> cell_slack(#[trigger] b[i], n) <= cell_slack(a[i], n),
        0 <= i0 < a.len(),
        cell_slack(b[i0], n) < cell_slack(a[i0], n),
    ensures
        board_slack(b, n) < board_slack(a, n),
    decreases a.len(),
{
    if i0 == a.len() - 1 {
        lemma_board_slack_pointwise_le(a.drop_last(), b.drop_last(), n);
    } else {
        lemma_board_slack_pointwise_lt(a.drop_last(), b.drop_last(), n, i0);
    }
}

/// The positional base: one more than any digit in use.
pub open spec fn lex_base(n: int) -> int {
    n * n * n + 2
}

/// The digit standing for "no board at this level".
pub open spec fn sentinel(n: int) -> int {
    n * n * n + 1
}

/// How many levels the number has; the stack is always shorter.
pub open spec fn lex_positions(n: int) -> int {
    n * n + 2
}

/// The digit of stack level `k`.
pub open spec fn stack_digit(s: Seq<BoardModel>, k: int, n: int) -> int {
    if 0 <= k < s.len() {
        board_slack(s[k].cells, n)
    } else {
        sentinel(n)
    }
}

/// The positional value of the digits from level `k` up.
pub open spec fn msum(s: Seq<BoardModel>, k: int, n: int) -> int
    decreases lex_positions(n) - k,
{
    if k < 0 || k >= lex_positions(n) {
        0
    } else {
        stack_digit(s, k, n) * pow(lex_base(n), (lex_positions(n) - 1 - k) as nat) + msum(
            s,
            k + 1,
            n,
        )
    }
}

/// The measure the search loop shrinks.
pub open spec fn search_measure(s: Seq<BoardModel>, n: int) -> int {
    msum(s, 0, n)
}

pub proof fn lemma_msum_nonneg(s: Seq<BoardModel>, k: int, n: int)
    requires
        n >= 0,
        forall|j: int| 0 <= j < s.len() ==> 0 <= board_slack((#[trigger] s[j]).cells, n),
    ensures
        0 <= msum(s, k, n),
    decreases lex_positions(n) - k,
{
    if 0 <= k < lex_positions(n) {
        lemma_msum_nonneg(s, k + 1, n);
        lemma_pow_positive(lex_base(n), (lex_positions(n) - 1 - k) as nat);
        assert(0 <= stack_digit(s, k, n)) by {
            assert(sentinel(n) >= 0) by (nonlinear_arith)
                requires
                    n >= 0,
            ;
        }
        lemma_mul_inequality(0, stack_digit(s, k, n), pow(lex_base(n), (lex_positions(n) - 1 - k) as nat));
    }
}

/// Two stacks whose digits agree from level `k` up have the same value
/// from level `k` up.
pub proof fn lemma_msum_agree(a: Seq<BoardModel>, b: Seq<BoardModel>, k: int, n: int)
    requires
        forall|j: int| k <= j < lex_positions(n) ==> stack_digit(a, j, n) == stack_digit(b, j, n),
    ensures
        msum(a, k, n) == msum(b, k, n),
    decreases lex_positions(n) - k,
{
    if 0 <= k < lex_positions(n) {
        lemma_msum_agree(a, b, k + 1, n);
    }
}

/// Differences below level `p` are invisible from level `p` up: the value
/// difference from level `k` equals the one from level `p` when the digits
/// in between agree.
pub proof fn lemma_msum_prefix_agree(a: Seq<BoardModel>, b: Seq<BoardModel>, k: int, p: int, n: int)
    requires
        0 <= k <= p,
        forall|j: int| k <= j < p ==> stack_digit(a, j, n) == stack_digit(b, j, n),
    ensures
        msum(a, k, n) - msum(b, k, n) == msum(a, p, n) - msum(b, p, n),
    decreases p - k,
{
    if k < p {
        if k >= lex_positions(n) {
            assert(msum(a, k, n) == 0 && msum(b, k, n) == 0);
            assert(msum(a, p, n) == 0 && msum(b, p, n) == 0);
        } else {
            lemma_msum_prefix_agree(a, b, k + 1, p, n);
        }
    }
}

/// Pushing a board onto the stack writes a digit below the sentinel at a
/// fresh level: the measure strictly shrinks.
pub proof fn lemma_measure_push(s: Seq<BoardModel>, w: BoardModel, n: int)
    requires
        n >= 0,
        s.len() < lex_positions(n),
        0 <= board_slack(w.cells, n) <= n * n * n,
        forall|j: int| 0 <= j < s.len() ==> 0 <= board_slack((#[trigger] s[j]).cells, n),
    ensures
        search_measure(s.push(w), n) < search_measure(s, n),
{
    let s2 = s.push(w);
    let len = s.len() as int;
    let pos = lex_positions(n);
    let base = lex_base(n);
    let p = pow(base, (pos - 1 - len) as nat);
    assert forall|j: int| 0 <= j < len implies stack_digit(s2, j, n) == stack_digit(s, j, n) by {
        assert(s2[j] == s[j]);
    }
    lemma_msum_prefix_agree(s, s2, 0, len, n);
    lemma_msum_agree(s, s2, len + 1, n);
    assert(msum(s, len, n) == sentinel(n) * p + msum(s, len + 1, n));
    assert(msum(s2, len, n) == board_slack(w.cells, n) * p + msum(s2, len + 1, n));
    lemma_pow_positive(base, (pos - 1 - len) as nat);
    lemma_mul_inequality(board_slack(w.cells, n) + 1, sentinel(n), p);
    assert((board_slack(w.cells, n) + 1) * p == board_slack(w.cells, n) * p + p)
        by (nonlinear_arith);
    assert(msum(s, len, n) - msum(s2, len, n) >= p);
    assert(search_measure(s, n) - search_measure(s2, n) >= p);
}

/// Backtracking pops the top board and lowers the digit of the level it
/// returns to; the sentinel that reappears above weighs less than that
/// loss: the measure strictly shrinks.
pub proof fn lemma_measure_backtrack(s: Seq<BoardModel>, tb: BoardModel, n: int)
    requires
        n >= 0,
        2 <= s.len() <= lex_positions(n),
        0 <= board_slack(tb.cells, n),
        board_slack(tb.cells, n) < board_slack(s[s.len() - 2].cells, n),
        forall|j: int|
            0 <= j < s.len() ==> 0 <= board_slack((#[trigger] s[j]).cells, n) <= n * n * n,
    ensures
        search_measure(s.subrange(0, s.len() - 2).push(tb), n) < search_measure(s, n),
{
    let len = s.len() as int;
    let pos = lex_positions(n);
    let base = lex_base(n);
    let s2 = s.subrange(0, len - 2).push(tb);
    let e0 = pos - len;
    let p0 = pow(base, e0 as nat);
    let p1 = pow(base, (e0 + 1) as nat);
    let d_old = board_slack(s[len - 2].cells, n);
    let d_new = board_slack(tb.cells, n);
    let d_pop = board_slack(s[len - 1].cells, n);
    assert(s2.len() == len - 1);
    assert forall|j: int| 0 <= j < len - 2 implies stack_digit(s2, j, n) == stack_digit(s, j, n) by {
        assert(s2[j] == s[j]);
    }
    lemma_msum_prefix_agree(s, s2, 0, len - 2, n);
    lemma_msum_agree(s, s2, len, n);
    assert(stack_digit(s, len - 2, n) == d_old && stack_digit(s2, len - 2, n) == d_new) by {
        assert(s2[len - 2] == tb);
    }
    assert(stack_digit(s, len - 1, n) == d_pop && stack_digit(s2, len - 1, n) == sentinel(n));
    assert(msum(s, len - 2, n) == d_old * p1 + msum(s, len - 1, n));
    assert(msum(s2, len - 2, n) == d_new * p1 + msum(s2, len - 1, n));
    assert(msum(s, len - 1, n) == d_pop * p0 + msum(s, len, n));
    assert(msum(s2, len - 1, n) == sentinel(n) * p0 + msum(s2, len, n));
    lemma_pow_positive(base, e0 as nat);
    assert(e0 >= 0);
    vstd::arithmetic::power::lemma_pow1(base);
    vstd::arithmetic::power::lemma_pow_adds(base, e0 as nat, 1nat);
    assert(p1 == p0 * base);
    assert(p0 * base == base * p0) by (nonlinear_arith);
    assert(p1 == base * p0);
    // the digit at the return level lost at least one unit...
    lemma_mul_inequality(d_new + 1, d_old, p1);
    assert((d_new + 1) * p1 == d_new * p1 + p1) by (nonlinear_arith);
    // ...which outweighs the sentinel replacing the popped digit.
    lemma_mul_inequality(d_pop - sentinel(n), 0, p0);
    lemma_mul_inequality(0, d_pop, p0);
    assert((d_pop - sentinel(n)) * p0 == d_pop * p0 - sentinel(n) * p0) by (nonlinear_arith);
    assert(sentinel(n) * p0 < p1) by {
        assert(base * p0 - sentinel(n) * p0 == p0) by (nonlinear_arith)
            requires
                base == sentinel(n) + 1,
        ;
    }
    assert((d_old - d_new) * p1 == d_old * p1 - d_new * p1) by (nonlinear_arith);
    assert(search_measure(s, n) - search_measure(s2, n) == (d_old - d_new) * p1 + d_pop * p0
        - sentinel(n) * p0);
    assert((d_old - d_new) * p1 >= p1) by {
        lemma_mul_inequality(1, d_old - d_new, p1);
    }
    assert(search_measure(s, n) - search_measure(s2, n) >= p1 + d_pop * p0 - sentinel(n) * p0);
    assert(search_measure(s, n) - search_measure(s2, n) > 0);
}

/// Each snapshot has strictly fewer unassigned cells than the one below
/// it, so the stack can never outgrow the cell count.
pub proof fn lemma_stack_len_bound(s: Seq<BoardModel>, n: int, k: int)
    requires
        forall|m: int|
            1 <= m < s.len() ==> unassigned_count((#[trigger] s[m]).cells) < unassigned_count(
                s[m - 1].cells,
            ),
        0 <= k < s.len(),
    ensures
        unassigned_count(s[k].cells) <= unassigned_count(s[0].cells) - k,
    decreases k,
{
    if k > 0 {
        lemma_stack_len_bound(s, n, k - 1);
    }
}

} // verus!

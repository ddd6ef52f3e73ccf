//! The library's global laws. A solved board is a valid solution: every
//! row, every column and every house holds each value 1..=N exactly once,
//! provided the input's clues did not already contradict one another. And
//! the two candidate-computation strategies, full rescan and localized
//! recomputation, agree wherever both have run: exact candidate sets are
//! determined by the digits and the exclusion lists alone.
use vstd::prelude::*;

use crate::board::{lemma_band_facts, lemma_flat_facts, lemma_in_band, lemma_split};
use crate::model::{
    admits, all_accurate, all_assigned, area_cands_contain, cand_ok, cands_in_prefix,
    cell_cands_exact, clue_consistent, consistent, forced_at, is_peer,
    lemma_admitted_value_is_candidate, lemma_cand_ok_frame, lemma_sorted_same_members, wf, wf_cell,
    BoardModel,
};

verus! {

/// The digits of row `r`, left to right.
pub open spec fn row_digits(b: BoardModel, r: int) -> Seq<int> {
    Seq::new(b.bsize as nat, |k: int| b.cells[r * b.bsize + k].digit as int)
}

/// The digits of column `c`, top to bottom.
pub open spec fn col_digits(b: BoardModel, c: int) -> Seq<int> {
    Seq::new(b.bsize as nat, |k: int| b.cells[k * b.bsize + c].digit as int)
}

/// The digits of house `g` (row-major over houses, then row-major inside),
/// as one sequence of N values.
pub open spec fn house_digits(b: BoardModel, g: int) -> Seq<int> {
    let h = b.hsize as int;
    Seq::new(
        b.bsize as nat,
        |k: int| b.cells[((g / h) * h + k / h) * b.bsize + ((g % h) * h + k % h)].digit as int,
    )
}

/// A group of N cells holds each value of 1..=N exactly once: it has N
/// entries, no entry repeats, and every value appears.
pub open spec fn group_complete(g: Seq<int>, n: int) -> bool {
    &&& g.len() == n
    &&& g.no_duplicates()
    &&& (forall|v: int| 1 <= v <= n ==> #[trigger] g.contains(v))
}

/// Any N cells that are pairwise peers of one another, on a fully assigned
/// board whose only conflicts could sit between clues and whose clues do
/// not conflict, hold each value exactly once.
proof fn lemma_group_complete(b: BoardModel, g: Seq<int>, idx: spec_fn(int) -> int)
    requires
        wf(b),
        all_assigned(b),
        consistent(b),
        clue_consistent(b),
        g.len() == b.bsize as int,
        forall|k: int| 0 <= k < b.bsize as int ==> 0 <= #[trigger] idx(k) < b.cells.len(),
        forall|k: int| 0 <= k < b.bsize as int ==> g[k] == b.cells[#[trigger] idx(k)].digit as int,
        forall|k1: int, k2: int|
            0 <= k1 < b.bsize as int && 0 <= k2 < b.bsize as int && k1 != k2 ==> is_peer(
                b.bsize as int,
                b.hsize as int,
                #[trigger] idx(k1),
                #[trigger] idx(k2),
            ),
    ensures
        group_complete(g, b.bsize as int),
{
    let n = b.bsize as int;
    // no digit repeats: a repeat would be a conflict between two peers,
    // allowed only for clue pairs, and clues do not conflict.
    assert forall|k1: int, k2: int| 0 <= k1 < k2 < g.len() implies g[k1] != g[k2] by {
        if g[k1] == g[k2] {
            let t1 = idx(k1);
            let t2 = idx(k2);
            assert(is_peer(n, b.hsize as int, t1, t2));
            assert(wf_cell(b, t1));
            assert(wf_cell(b, t2));
            assert(b.cells[t1].digit != 0);
            assert(!b.cells[t1].was_empty && !b.cells[t2].was_empty);
            assert(b.clues[t1] == b.cells[t1].digit);
            assert(b.clues[t2] == b.cells[t2].digit);
            assert(b.clues[t1] != b.clues[t2]);
        }
    }
    assert(g.no_duplicates());
    // every value appears: n pairwise distinct digits drawn from 1..=n
    // must cover 1..=n.
    assert forall|k: int| 0 <= k < g.len() implies 1 <= #[trigger] g[k] <= n by {
        assert(wf_cell(b, idx(k)));
        assert(b.cells[idx(k)].digit != 0);
    }
    lemma_distinct_covers(g, n);
}

/// Pigeonhole: n pairwise distinct values drawn from 1..=n cover 1..=n.
proof fn lemma_distinct_covers(g: Seq<int>, n: int)
    requires
        g.len() == n,
        forall|k: int| 0 <= k < g.len() ==> 1 <= #[trigger] g[k] <= n,
        g.no_duplicates(),
    ensures
        forall|v: int| 1 <= v <= n ==> #[trigger] g.contains(v),
{
    g.unique_seq_to_set();
    let rng = vstd::set_lib::set_int_range(1, n + 1);
    vstd::set_lib::lemma_int_range(1, n + 1);
    assert(g.to_set().subset_of(rng)) by {
        assert forall|v: int| g.to_set().contains(v) implies rng.contains(v) by {
            assert(g.contains(v));
            let k = choose|k: int| 0 <= k < g.len() && g[k] == v;
            assert(1 <= g[k] <= n);
        }
    }
    vstd::set_lib::lemma_subset_equality(g.to_set(), rng);
    assert forall|v: int| 1 <= v <= n implies #[trigger] g.contains(v) by {
        assert(rng.contains(v));
        assert(g.to_set().contains(v));
    }
}

/// Every solved output is a valid solution: each row, each column and each
/// house of a fully assigned, consistent board holds every value of 1..=N
/// exactly once — provided no two clues of the input already conflicted
/// (a board whose givens repeat a digit inside one group has no valid
/// completion to begin with).
pub proof fn lemma_solved_board_valid(b: BoardModel)
    requires
        wf(b),
        all_assigned(b),
        consistent(b),
        clue_consistent(b),
    ensures
        forall|r: int|
            0 <= r < b.bsize as int ==> #[trigger] group_complete(row_digits(b, r), b.bsize as int),
        forall|c: int|
            0 <= c < b.bsize as int ==> #[trigger] group_complete(col_digits(b, c), b.bsize as int),
        forall|g: int|
            0 <= g < b.bsize as int ==> #[trigger] group_complete(
                house_digits(b, g),
                b.bsize as int,
            ),
{
    let n = b.bsize as int;
    let h = b.hsize as int;
    assert forall|r: int| 0 <= r < n implies #[trigger] group_complete(row_digits(b, r), n) by {
        let idx = |k: int| r * n + k;
        assert forall|k: int| 0 <= k < n implies 0 <= #[trigger] idx(k) < b.cells.len() by {
            lemma_flat_facts(n, r, k);
        }
        assert forall|k1: int, k2: int|
            0 <= k1 < n && 0 <= k2 < n && k1 != k2 implies is_peer(
            n,
            h,
            #[trigger] idx(k1),
            #[trigger] idx(k2),
        ) by {
            lemma_flat_facts(n, r, k1);
            lemma_flat_facts(n, r, k2);
        }
        lemma_group_complete(b, row_digits(b, r), idx);
    }
    assert forall|c: int| 0 <= c < n implies #[trigger] group_complete(col_digits(b, c), n) by {
        let idx = |k: int| k * n + c;
        assert forall|k: int| 0 <= k < n implies 0 <= #[trigger] idx(k) < b.cells.len() by {
            lemma_flat_facts(n, k, c);
        }
        assert forall|k1: int, k2: int|
            0 <= k1 < n && 0 <= k2 < n && k1 != k2 implies is_peer(
            n,
            h,
            #[trigger] idx(k1),
            #[trigger] idx(k2),
        ) by {
            lemma_flat_facts(n, k1, c);
            lemma_flat_facts(n, k2, c);
        }
        lemma_group_complete(b, col_digits(b, c), idx);
    }
    assert forall|g: int| 0 <= g < n implies #[trigger] group_complete(house_digits(b, g), n) by {
        let hr = g / h;
        let hc = g % h;
        proof_house_group(b, g);
    }
}

/// The house case of the validity proof, separated for the heavier index
/// arithmetic: the N cells of house `g` are pairwise peers.
proof fn proof_house_group(b: BoardModel, g: int)
    requires
        wf(b),
        all_assigned(b),
        consistent(b),
        clue_consistent(b),
        0 <= g < b.bsize as int,
    ensures
        group_complete(house_digits(b, g), b.bsize as int),
{
    let n = b.bsize as int;
    let h = b.hsize as int;
    let hr = g / h;
    let hc = g % h;
    assert(h >= 1) by (nonlinear_arith)
        requires
            h >= 0 && h * h == n && n >= 1,
    ;
    vstd::arithmetic::div_mod::lemma_mod_bound(g, h);
    assert(0 <= hc < h);
    assert(0 <= hr < h) by {
        crate::board::lemma_house_bounds(h, g);
    }
    let idx = |k: int| (hr * h + k / h) * n + (hc * h + k % h);
    assert forall|k: int| 0 <= k < n implies 0 <= #[trigger] idx(k) < b.cells.len()
        && b.cells.len() == n * n by {
        lemma_house_cell_facts(n, h, hr, hc, k);
    }
    assert forall|k1: int, k2: int|
        0 <= k1 < n && 0 <= k2 < n && k1 != k2 implies is_peer(
        n,
        h,
        #[trigger] idx(k1),
        #[trigger] idx(k2),
    ) by {
        lemma_house_cell_facts(n, h, hr, hc, k1);
        lemma_house_cell_facts(n, h, hr, hc, k2);
        if k1 / h == k2 / h && k1 % h == k2 % h {
            vstd::arithmetic::div_mod::lemma_fundamental_div_mod(k1, h);
            vstd::arithmetic::div_mod::lemma_fundamental_div_mod(k2, h);
        }
    }
    lemma_group_complete(b, house_digits(b, g), idx);
}

/// The k-th cell of house (hr, hc) sits inside the board, in row band `hr`
/// and column band `hc`.
proof fn lemma_house_cell_facts(n: int, h: int, hr: int, hc: int, k: int)
    requires
        h >= 1,
        h * h == n,
        0 <= hr < h,
        0 <= hc < h,
        0 <= k < n,
    ensures
        0 <= (hr * h + k / h) * n + (hc * h + k % h) < n * n,
        crate::model::row_of(n, (hr * h + k / h) * n + (hc * h + k % h)) == hr * h + k / h,
        crate::model::col_of(n, (hr * h + k / h) * n + (hc * h + k % h)) == hc * h + k % h,
        (hr * h + k / h) / h == hr,
        (hc * h + k % h) / h == hc,
{
    vstd::arithmetic::div_mod::lemma_mod_bound(k, h);
    assert(0 <= k / h < h) by {
        crate::board::lemma_house_bounds(h, k);
    }
    let r = hr * h + k / h;
    let c = hc * h + k % h;
    assert(0 <= r < n && 0 <= c < n) by (nonlinear_arith)
        requires
            h >= 1 && h * h == n && 0 <= hr < h && 0 <= hc < h && 0 <= k / h < h && 0 <= k % h < h
                && r == hr * h + k / h && c == hc * h + k % h,
    ;
    lemma_flat_facts(n, r, c);
    lemma_in_band(h, hr, r);
    lemma_in_band(h, hc, c);
}

/// Full rescan and localized recomputation agree on every board state:
/// exact candidate sets are a function of the digits and the exclusion
/// lists alone, so two boards that agree on those — however their sets
/// were computed — carry identical candidates on every unassigned cell.
pub proof fn lemma_candidate_strategies_agree(a: BoardModel, b: BoardModel)
    requires
        a.bsize == b.bsize,
        a.hsize == b.hsize,
        a.cells.len() == b.cells.len(),
        forall|t: int|
            0 <= t < a.cells.len() ==> (#[trigger] b.cells[t]).digit == a.cells[t].digit,
        forall|t: int|
            0 <= t < a.cells.len() ==> (#[trigger] b.cells[t]).cand_limit == a.cells[t].cand_limit,
        all_accurate(a),
        all_accurate(b),
    ensures
        forall|t: int|
            0 <= t < a.cells.len() && a.cells[t].digit == 0 ==> (#[trigger] a.cells[t]).cand
                == b.cells[t].cand,
{
    assert forall|t: int|
        0 <= t < a.cells.len() && a.cells[t].digit == 0 implies (#[trigger] a.cells[t]).cand
        == b.cells[t].cand by {
        assert(crate::model::accurate(a, t));
        assert(crate::model::accurate(b, t));
        assert(cell_cands_exact(a, t));
        assert(cell_cands_exact(b, t));
        lemma_cand_ok_frame(a, b, t);
        assert forall|v: u16| a.cells[t].cand.contains(v) <==> b.cells[t].cand.contains(v) by {
            assert(a.cells[t].cand.contains(v) <==> cand_ok(a, t, v));
            assert(b.cells[t].cand.contains(v) <==> cand_ok(b, t, v));
        }
        lemma_sorted_same_members(a.cells[t].cand, b.cells[t].cand);
    }
}

/// No cell that `area` names can take `v` in `s`: the assigned ones hold
/// other digits, and `v` survives in no unassigned one's candidate set.
proof fn lemma_area_blocked(b: BoardModel, t: int, v: u16, s: Seq<u16>, area: Seq<usize>)
    requires
        wf(b),
        all_accurate(b),
        admits(b, s),
        0 <= t < b.cells.len(),
        cand_ok(b, t, v),
        !area_cands_contain(b, area, v),
        forall|u: usize| #[trigger]
            area.contains(u) ==> u < b.cells.len() && is_peer(
                b.bsize as int,
                b.hsize as int,
                t,
                u as int,
            ),
    ensures
        forall|u: usize| #[trigger] area.contains(u) ==> s[u as int] != v,
{
    assert forall|u: usize| #[trigger] area.contains(u) implies s[u as int] != v by {
        let k = choose|k: int| 0 <= k < area.len() && area[k] == u;
        if b.cells[u as int].digit != 0 {
            assert(s[u as int] == b.cells[u as int].digit);
            assert(b.cells[u as int].digit != v);
        } else {
            assert(!(b.cells[area[k] as int].digit == 0 && b.cells[area[k] as int].cand.contains(
                v,
            ))) by {
                if b.cells[area[k] as int].digit == 0 && b.cells[area[k] as int].cand.contains(v) {
                    assert(cands_in_prefix(b, area, area.len() as int, v));
                }
            }
            assert(crate::model::accurate(b, u as int));
            lemma_admitted_value_is_candidate(b, u as int, s);
        }
    }
}

/// A forced single is sound: every complete assignment the board still
/// admits puts exactly the forced value in the forced cell, because the
/// blocked group must still receive that value somewhere.
pub proof fn lemma_forced_sound(b: BoardModel, t: int, v: u16, s: Seq<u16>)
    requires
        wf(b),
        all_accurate(b),
        forced_at(b, t, v),
        admits(b, s),
    ensures
        s[t] == v,
{
    let n = b.bsize as int;
    let h = b.hsize as int;
    assert(wf_cell(b, t));
    assert(crate::model::accurate(b, t));
    assert(cell_cands_exact(b, t));
    assert(cand_ok(b, t, v));
    assert(b.cells.len() < 0xFFFF_FFFF) by (nonlinear_arith)
        requires
            b.bsize <= 0xFFFF && b.cells.len() == (b.bsize as int) * (b.bsize as int),
    ;
    let r = crate::model::row_of(n, t);
    let c = crate::model::col_of(n, t);
    lemma_split(n, t);
    if !area_cands_contain(b, b.cells[t].row, v) {
        lemma_area_blocked(b, t, v, s, b.cells[t].row);
        let g = Seq::new(n as nat, |k: int| s[r * n + k] as int);
        lemma_full_row_covers(b, s, r, g);
        assert(g.contains(v as int));
        let k = choose|k: int| 0 <= k < g.len() && g[k] == v as int;
        lemma_flat_facts(n, r, k);
        if r * n + k != t {
            let u = r * n + k;
            assert(0 <= u < b.cells.len());
            assert(u as usize as int == u);
            assert(b.cells[t].row.contains(u as usize));
            assert(s[u] != v);
            assert(false);
        }
    } else if !area_cands_contain(b, b.cells[t].col, v) {
        lemma_area_blocked(b, t, v, s, b.cells[t].col);
        let g = Seq::new(n as nat, |k: int| s[k * n + c] as int);
        lemma_full_col_covers(b, s, c, g);
        assert(g.contains(v as int));
        let k = choose|k: int| 0 <= k < g.len() && g[k] == v as int;
        lemma_flat_facts(n, k, c);
        if k * n + c != t {
            let u = k * n + c;
            assert(0 <= u < b.cells.len());
            assert(u as usize as int == u);
            assert(b.cells[t].col.contains(u as usize));
            assert(s[u] != v);
            assert(false);
        }
    } else {
        assert(!area_cands_contain(b, b.cells[t].house, v));
        lemma_area_blocked(b, t, v, s, b.cells[t].house);
        let hr = r / h;
        let hc = c / h;
        assert(h >= 1) by (nonlinear_arith)
            requires
                h >= 0 && h * h == n && n >= 1,
        ;
        assert(0 <= hr < h && 0 <= hc < h) by {
            crate::board::lemma_house_bounds(h, r);
            crate::board::lemma_house_bounds(h, c);
        }
        let g = Seq::new(n as nat, |k: int| s[(hr * h + k / h) * n + (hc * h + k % h)] as int);
        lemma_full_house_covers(b, s, hr, hc, g);
        assert(g.contains(v as int));
        let k = choose|k: int| 0 <= k < g.len() && g[k] == v as int;
        lemma_house_cell_facts(n, h, hr, hc, k);
        let u = (hr * h + k / h) * n + (hc * h + k % h);
        lemma_band_facts(h, r);
        lemma_band_facts(h, c);
        if u != t {
            assert(0 <= u < b.cells.len());
            assert(u as usize as int == u);
            assert(crate::model::same_house(n, h, t, u));
            assert(b.cells[t].house.contains(u as usize));
            assert(s[u] != v);
            assert(false);
        }
    }
}

/// In a complete admitted assignment, row `r` covers every value 1..=N.
proof fn lemma_full_row_covers(b: BoardModel, s: Seq<u16>, r: int, g: Seq<int>)
    requires
        wf(b),
        admits(b, s),
        0 <= r < b.bsize as int,
        g == Seq::new(b.bsize as nat, |k: int| s[r * b.bsize + k] as int),
    ensures
        forall|v: int| 1 <= v <= b.bsize as int ==> #[trigger] g.contains(v),
{
    let n = b.bsize as int;
    assert forall|k: int| 0 <= k < g.len() implies 1 <= #[trigger] g[k] <= n by {
        lemma_flat_facts(n, r, k);
    }
    assert forall|k1: int, k2: int| 0 <= k1 < k2 < g.len() implies g[k1] != g[k2] by {
        lemma_flat_facts(n, r, k1);
        lemma_flat_facts(n, r, k2);
        assert(is_peer(n, b.hsize as int, r * n + k1, r * n + k2));
    }
    lemma_distinct_covers(g, n);
}

/// In a complete admitted assignment, column `c` covers every value 1..=N.
proof fn lemma_full_col_covers(b: BoardModel, s: Seq<u16>, c: int, g: Seq<int>)
    requires
        wf(b),
        admits(b, s),
        0 <= c < b.bsize as int,
        g == Seq::new(b.bsize as nat, |k: int| s[k * b.bsize + c] as int),
    ensures
        forall|v: int| 1 <= v <= b.bsize as int ==> #[trigger] g.contains(v),
{
    let n = b.bsize as int;
    assert forall|k: int| 0 <= k < g.len() implies 1 <= #[trigger] g[k] <= n by {
        lemma_flat_facts(n, k, c);
    }
    assert forall|k1: int, k2: int| 0 <= k1 < k2 < g.len() implies g[k1] != g[k2] by {
        lemma_flat_facts(n, k1, c);
        lemma_flat_facts(n, k2, c);
        assert(is_peer(n, b.hsize as int, k1 * n + c, k2 * n + c));
    }
    lemma_distinct_covers(g, n);
}

/// In a complete admitted assignment, the house at bands (hr, hc) covers
/// every value 1..=N.
proof fn lemma_full_house_covers(b: BoardModel, s: Seq<u16>, hr: int, hc: int, g: Seq<int>)
    requires
        wf(b),
        admits(b, s),
        b.hsize >= 1,
        0 <= hr < b.hsize as int,
        0 <= hc < b.hsize as int,
        g == Seq::new(
            b.bsize as nat,
            |k: int|
                s[(hr * (b.hsize as int) + k / (b.hsize as int)) * (b.bsize as int) + (hc * (
                b.hsize as int) + k % (b.hsize as int))] as int,
        ),
    ensures
        forall|v: int| 1 <= v <= b.bsize as int ==> #[trigger] g.contains(v),
{
    let n = b.bsize as int;
    let h = b.hsize as int;
    assert forall|k: int| 0 <= k < g.len() implies 1 <= #[trigger] g[k] <= n by {
        lemma_house_cell_facts(n, h, hr, hc, k);
    }
    assert forall|k1: int, k2: int| 0 <= k1 < k2 < g.len() implies g[k1] != g[k2] by {
        lemma_house_cell_facts(n, h, hr, hc, k1);
        lemma_house_cell_facts(n, h, hr, hc, k2);
        if k1 / h == k2 / h && k1 % h == k2 % h {
            vstd::arithmetic::div_mod::lemma_fundamental_div_mod(k1, h);
            vstd::arithmetic::div_mod::lemma_fundamental_div_mod(k2, h);
        }
        let u1 = (hr * h + k1 / h) * n + (hc * h + k1 % h);
        let u2 = (hr * h + k2 / h) * n + (hc * h + k2 % h);
        assert(is_peer(n, h, u1, u2));
    }
    lemma_distinct_covers(g, n);
}

} // verus!

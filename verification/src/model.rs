//! Mathematical model of the board: ghost images of cells and boards, the
//! peer relation on flat cell indices, well-formedness, exact candidate
//! sets, consistency, and the forced-single condition that drives the
//! elimination engine.
use vstd::prelude::*;

verus! {

/// Ghost image of one grid cell: its digit (0 = unassigned), the flat
/// indices of its row, column, house and area-of-effect peers, its current
/// candidate set, its permanent per-branch exclusion list, and the
/// presentation metadata (originally blank, assigned with one candidate
/// left).
#[verifier::ext_equal]
pub ghost struct CellModel {
    pub digit: u16,
    pub row: Seq<usize>,
    pub col: Seq<usize>,
    pub house: Seq<usize>,
    pub aoe: Seq<usize>,
    pub cand: Seq<u16>,
    pub cand_limit: Seq<u16>,
    pub was_empty: bool,
    pub known: bool,
}

/// Ghost image of a board: side length, house side length, the last forced
/// assignment (row, column, digit), the cells in row-major order, the
/// solved flag, and the original clues (0 = blank) the board was built from.
#[verifier::ext_equal]
pub ghost struct BoardModel {
    pub bsize: usize,
    pub hsize: usize,
    pub last_modified: (usize, usize, u16),
    pub cells: Seq<CellModel>,
    pub solved: bool,
    pub clues: Seq<u16>,
}

/// Row of the cell with flat index `t` on a board of side `n`.
pub open spec fn row_of(n: int, t: int) -> int {
    t / n
}

/// Column of the cell with flat index `t` on a board of side `n`.
pub open spec fn col_of(n: int, t: int) -> int {
    t % n
}

pub open spec fn same_row(n: int, t1: int, t2: int) -> bool {
    row_of(n, t1) == row_of(n, t2)
}

pub open spec fn same_col(n: int, t1: int, t2: int) -> bool {
    col_of(n, t1) == col_of(n, t2)
}

/// Two cells share a house when their rows lie in the same band of `h`
/// rows and their columns in the same band of `h` columns.
pub open spec fn same_house(n: int, h: int, t1: int, t2: int) -> bool {
    row_of(n, t1) / h == row_of(n, t2) / h && col_of(n, t1) / h == col_of(n, t2) / h
}

/// The area-of-effect relation: two distinct cells that share a row, a
/// column or a house. It is symmetric by construction.
pub open spec fn is_peer(n: int, h: int, t1: int, t2: int) -> bool {
    t1 != t2 && (same_row(n, t1, t2) || same_col(n, t1, t2) || same_house(n, h, t1, t2))
}

pub open spec fn cell_count(b: BoardModel) -> int {
    (b.bsize as int) * (b.bsize as int)
}

/// Flat indices in strictly increasing order (so in particular without
/// duplicates); for a row, a column or a house this is exactly ascending
/// column / ascending row / row-major order.
pub open spec fn strictly_increasing(s: Seq<usize>) -> bool {
    forall|i: int, j: int| 0 <= i < j < s.len() ==> s[i] < s[j]
}

/// The peer lists stored in cell image `c`, meant to sit at flat index `t`,
/// hold exactly the indices that the peer relation names: the row, column
/// and house lists in increasing flat order (ascending column, ascending
/// row, row-major) with their exact lengths, and the area-of-effect as
/// their duplicate-free union.
pub open spec fn cell_topo_ok(c: CellModel, n: int, h: int, t: int) -> bool {
    &&& (forall|u: usize|
        #[trigger] c.row.contains(u) <==> u < n * n && u as int != t && same_row(n, t, u as int))
    &&& (forall|u: usize|
        #[trigger] c.col.contains(u) <==> u < n * n && u as int != t && same_col(n, t, u as int))
    &&& (forall|u: usize|
        #[trigger] c.house.contains(u) <==> u < n * n && u as int != t && same_house(
            n,
            h,
            t,
            u as int,
        ))
    &&& (forall|u: usize| #[trigger] c.aoe.contains(u) <==> u < n * n && is_peer(n, h, t, u as int))
    &&& strictly_increasing(c.row)
    &&& strictly_increasing(c.col)
    &&& strictly_increasing(c.house)
    &&& c.aoe.no_duplicates()
    &&& c.row.len() == n - 1
    &&& c.col.len() == n - 1
    &&& c.house.len() == h * h - 1
    &&& c.aoe.len() == 2 * n + h * h - 2 * h - 1
}

/// The stored peer lists of cell `t` hold exactly the indices that the
/// peer relation names.
pub open spec fn topo_ok(b: BoardModel, t: int) -> bool {
    cell_topo_ok(b.cells[t], b.bsize as int, b.hsize as int, t)
}

pub open spec fn wf_cell(b: BoardModel, t: int) -> bool {
    let n = b.bsize;
    let c = b.cells[t];
    &&& c.digit <= n
    &&& b.clues[t] <= n
    &&& c.was_empty == (b.clues[t] == 0)
    &&& (!c.was_empty ==> c.digit == b.clues[t])
    &&& (forall|v: u16| #[trigger] c.cand.contains(v) ==> 1 <= v <= n)
    &&& c.cand_limit.no_duplicates()
    &&& (forall|v: u16| #[trigger] c.cand_limit.contains(v) ==> 1 <= v <= n)
    &&& c.cand_limit.len() <= n
    &&& topo_ok(b, t)
}

/// Well-formed board: a perfect-square side length, one cell and one clue
/// per position, and every cell well-formed.
pub open spec fn wf(b: BoardModel) -> bool {
    &&& (b.hsize as int) * (b.hsize as int) == b.bsize as int
    &&& b.bsize <= 0xFFFF
    &&& b.cells.len() == cell_count(b)
    &&& b.clues.len() == cell_count(b)
    &&& (forall|t: int| 0 <= t < b.cells.len() ==> #[trigger] wf_cell(b, t))
}

/// Value `v` is admissible for cell `t`: in range, not permanently
/// excluded, and held by no peer.
pub open spec fn cand_ok(b: BoardModel, t: int, v: u16) -> bool {
    let n = b.bsize as int;
    let h = b.hsize as int;
    &&& 1 <= v <= n
    &&& !b.cells[t].cand_limit.contains(v)
    &&& (forall|u: int|
        0 <= u < b.cells.len() && #[trigger] is_peer(n, h, t, u) ==> b.cells[u].digit != v)
}

pub open spec fn strictly_sorted(s: Seq<u16>) -> bool {
    forall|i: int, j: int| 0 <= i < j < s.len() ==> s[i] < s[j]
}

/// The stored candidate list of cell `t` is exactly the admissible values,
/// in ascending order.
pub open spec fn cell_cands_exact(b: BoardModel, t: int) -> bool {
    &&& strictly_sorted(b.cells[t].cand)
    &&& (forall|v: u16|
        #![trigger b.cells[t].cand.contains(v)]
        #![trigger cand_ok(b, t, v)]
        b.cells[t].cand.contains(v) <==> cand_ok(b, t, v))
}

/// An unassigned cell carries its exact candidate set.
pub open spec fn accurate(b: BoardModel, t: int) -> bool {
    b.cells[t].digit == 0 ==> cell_cands_exact(b, t)
}

pub open spec fn all_accurate(b: BoardModel) -> bool {
    forall|t: int| 0 <= t < b.cells.len() ==> #[trigger] accurate(b, t)
}

/// No two assigned peers hold the same digit, except possibly a pair of
/// original clues: the solver never repairs a contradiction that was
/// already present in the input.
pub open spec fn consistent(b: BoardModel) -> bool {
    forall|t1: int, t2: int|
        0 <= t1 < b.cells.len() && 0 <= t2 < b.cells.len() && #[trigger] is_peer(
            b.bsize as int,
            b.hsize as int,
            t1,
            t2,
        ) && b.cells[t1].digit != 0 && b.cells[t1].digit == b.cells[t2].digit ==> (
        !b.cells[t1].was_empty && !b.cells[t2].was_empty)
}

/// No two clue positions that are peers hold the same clue.
pub open spec fn clue_consistent(b: BoardModel) -> bool {
    forall|t1: int, t2: int|
        0 <= t1 < b.clues.len() && 0 <= t2 < b.clues.len() && #[trigger] is_peer(
            b.bsize as int,
            b.hsize as int,
            t1,
            t2,
        ) && b.clues[t1] != 0 ==> b.clues[t1] != b.clues[t2]
}

/// An input grid, flattened row-major into one clue per cell.
pub open spec fn flat_grid(g: Seq<Vec<u16>>, n: int) -> Seq<u16> {
    Seq::new((n * n) as nat, |t: int| g[row_of(n, t)]@[col_of(n, t)])
}

pub open spec fn all_assigned(b: BoardModel) -> bool {
    forall|t: int| 0 <= t < b.cells.len() ==> (#[trigger] b.cells[t]).digit != 0
}

/// The digits of the assigned cells among the first `m` that `area` names,
/// concatenated in area order.
pub open spec fn digits_seq_prefix(b: BoardModel, area: Seq<usize>, m: int) -> Seq<u16>
    decreases m,
{
    if m <= 0 || m > area.len() {
        Seq::empty()
    } else {
        digits_seq_prefix(b, area, m - 1) + (if b.cells[area[m - 1] as int].digit != 0 {
            seq![b.cells[area[m - 1] as int].digit]
        } else {
            Seq::empty()
        })
    }
}

/// The candidate lists of the unassigned cells among the first `m` that
/// `area` names, concatenated in area order.
pub open spec fn cands_seq_prefix(b: BoardModel, area: Seq<usize>, m: int) -> Seq<u16>
    decreases m,
{
    if m <= 0 || m > area.len() {
        Seq::empty()
    } else {
        cands_seq_prefix(b, area, m - 1) + (if b.cells[area[m - 1] as int].digit == 0 {
            b.cells[area[m - 1] as int].cand
        } else {
            Seq::empty()
        })
    }
}

/// Some unassigned cell among the first `m` that `area` names keeps `v`
/// among its candidates.
pub open spec fn cands_in_prefix(b: BoardModel, area: Seq<usize>, m: int, v: u16) -> bool {
    exists|k: int|
        0 <= k < m && k < area.len() && b.cells[#[trigger] area[k] as int].digit == 0
            && b.cells[area[k] as int].cand.contains(v)
}

/// Some unassigned cell named by `area` keeps `v` among its candidates.
pub open spec fn area_cands_contain(b: BoardModel, area: Seq<usize>, v: u16) -> bool {
    cands_in_prefix(b, area, area.len() as int, v)
}

/// Some cell among the first `m` that `area` names holds digit `v`.
pub open spec fn digits_in_prefix(b: BoardModel, area: Seq<usize>, m: int, v: u16) -> bool {
    exists|k: int|
        0 <= k < m && k < area.len() && b.cells[#[trigger] area[k] as int].digit == v && v != 0
}

/// Some cell named by `area` holds digit `v`.
pub open spec fn area_digits_contain(b: BoardModel, area: Seq<usize>, v: u16) -> bool {
    digits_in_prefix(b, area, area.len() as int, v)
}

/// Candidate `v` is uniquely forced into cell `t`: the cell is unassigned,
/// `v` is one of its candidates, and no other cell of its row, its column
/// or its house can still take `v`.
pub open spec fn forced_at(b: BoardModel, t: int, v: u16) -> bool {
    let c = b.cells[t];
    &&& 0 <= t < b.cells.len()
    &&& c.digit == 0
    &&& c.cand.contains(v)
    &&& (!area_cands_contain(b, c.row, v) || !area_cands_contain(b, c.col, v)
        || !area_cands_contain(b, c.house, v))
}

pub open spec fn no_forced(b: BoardModel) -> bool {
    forall|t: int, v: u16| !#[trigger] forced_at(b, t, v)
}

/// What localized recomputation from cell `t` reestablishes: every cell
/// that either was exact before or lies in `t`'s area-of-effect is exact
/// afterwards (if still unassigned). Pre-existing staleness elsewhere is
/// neither repaired nor made worse.
pub open spec fn repaired(pre: BoardModel, post: BoardModel, t: int) -> bool {
    forall|u: int|
        0 <= u < post.cells.len() && post.cells[u].digit == 0 && (cell_cands_exact(pre, u)
            || is_peer(pre.bsize as int, pre.hsize as int, t, u)) ==> #[trigger] cell_cands_exact(
            post,
            u,
        )
}

/// What the cascade guarantees on top of `repaired`: a cell that either
/// had its exact, more-than-one-element candidate set before, or lies in
/// `t`'s area-of-effect, is not left unassigned with a single candidate —
/// a naked single is always committed on the spot.
pub open spec fn cascade_settled(pre: BoardModel, post: BoardModel, t: int) -> bool {
    forall|x: int|
        0 <= x < post.cells.len() && post.cells[x].digit == 0 && ((cell_cands_exact(pre, x)
            && pre.cells[x].cand.len() != 1) || is_peer(pre.bsize as int, pre.hsize as int, t, x))
            ==> (#[trigger] post.cells[x]).cand.len() != 1
}

/// Everything but the digits, the candidate sets and the exclusion lists
/// agrees between two cell images.
pub open spec fn cell_frame_eq(c1: CellModel, c2: CellModel) -> bool {
    &&& c1.row == c2.row
    &&& c1.col == c2.col
    &&& c1.house == c2.house
    &&& c1.aoe == c2.aoe
    &&& c1.was_empty == c2.was_empty
    &&& c1.known == c2.known
}

/// Candidate recomputation and elimination leave the board's shape, its
/// clues, its topology, its metadata and its exclusion lists untouched.
pub open spec fn same_frame(a: BoardModel, b: BoardModel) -> bool {
    &&& b.bsize == a.bsize
    &&& b.hsize == a.hsize
    &&& b.clues == a.clues
    &&& b.cells.len() == a.cells.len()
    &&& (forall|t: int|
        0 <= t < a.cells.len() ==> #[trigger] cell_frame_eq(a.cells[t], b.cells[t]))
    &&& (forall|t: int|
        0 <= t < a.cells.len() ==> #[trigger] b.cells[t].cand_limit == a.cells[t].cand_limit)
}

/// Digits never revert to 0 and never change once set.
pub open spec fn digits_monotone(a: BoardModel, b: BoardModel) -> bool {
    forall|t: int|
        0 <= t < a.cells.len() && a.cells[t].digit != 0 ==> #[trigger] b.cells[t].digit
            == a.cells[t].digit
}

/// Number of unassigned cells; the cascade and the elimination engine
/// terminate because every assignment lowers it.
pub open spec fn unassigned_count(cells: Seq<CellModel>) -> int
    decreases cells.len(),
{
    if cells.len() == 0 {
        0
    } else {
        unassigned_count(cells.drop_last()) + if cells.last().digit == 0 {
            1int
        } else {
            0int
        }
    }
}

/// `unassigned_count` lies between 0 and the number of cells.
pub proof fn lemma_unassigned_count_bounds(cells: Seq<CellModel>)
    ensures
        0 <= unassigned_count(cells) <= cells.len(),
    decreases cells.len(),
{
    if cells.len() > 0 {
        lemma_unassigned_count_bounds(cells.drop_last());
    }
}

/// If every cell unassigned in `b` is unassigned in `a`, then `b` has no
/// more unassigned cells than `a`; the count drops strictly as soon as one
/// cell of `a` got a digit in `b`.
pub proof fn lemma_unassigned_count_le(a: Seq<CellModel>, b: Seq<CellModel>)
    requires
        a.len() == b.len(),
        forall|t: int| 0 <= t < b.len() && (#[trigger] b[t]).digit == 0 ==> a[t].digit == 0,
    ensures
        unassigned_count(b) <= unassigned_count(a),
    decreases a.len(),
{
    if a.len() > 0 {
        lemma_unassigned_count_le(a.drop_last(), b.drop_last());
    }
}

pub proof fn lemma_unassigned_count_lt(a: Seq<CellModel>, b: Seq<CellModel>, t: int)
    requires
        a.len() == b.len(),
        forall|u: int| 0 <= u < b.len() && (#[trigger] b[u]).digit == 0 ==> a[u].digit == 0,
        0 <= t < a.len(),
        a[t].digit == 0,
        b[t].digit != 0,
    ensures
        unassigned_count(b) < unassigned_count(a),
    decreases a.len(),
{
    if t == a.len() - 1 {
        lemma_unassigned_count_le(a.drop_last(), b.drop_last());
    } else {
        lemma_unassigned_count_lt(a.drop_last(), b.drop_last(), t);
    }
}

/// Admissibility of a value for cell `x` depends only on the board shape,
/// `x`'s exclusion list and the digits of `x`'s peers.
pub proof fn lemma_cand_ok_frame(a: BoardModel, b: BoardModel, x: int)
    requires
        a.bsize == b.bsize,
        a.hsize == b.hsize,
        a.cells.len() == b.cells.len(),
        0 <= x < a.cells.len(),
        b.cells[x].cand_limit == a.cells[x].cand_limit,
        forall|u: int|
            0 <= u < a.cells.len() && is_peer(a.bsize as int, a.hsize as int, x, u)
                ==> (#[trigger] b.cells[u]).digit == a.cells[u].digit,
    ensures
        forall|v: u16| #[trigger] cand_ok(a, x, v) <==> cand_ok(b, x, v),
{
    assert forall|v: u16| #[trigger] cand_ok(b, x, v) implies cand_ok(a, x, v) by {
        assert forall|u: int|
            0 <= u < a.cells.len() && #[trigger] is_peer(
                a.bsize as int,
                a.hsize as int,
                x,
                u,
            ) implies a.cells[u].digit != v by {
            assert(b.cells[u].digit == a.cells[u].digit);
        }
    }
    assert forall|v: u16| #[trigger] cand_ok(a, x, v) implies cand_ok(b, x, v) by {
        assert forall|u: int|
            0 <= u < b.cells.len() && #[trigger] is_peer(
                b.bsize as int,
                b.hsize as int,
                x,
                u,
            ) implies b.cells[u].digit != v by {
            assert(b.cells[u].digit == a.cells[u].digit);
        }
    }
}

/// The exact-candidates property carries over between boards that agree on
/// the cell's candidate list, its exclusion list and its peers' digits.
pub proof fn lemma_exactness_frame(a: BoardModel, b: BoardModel, x: int)
    requires
        a.bsize == b.bsize,
        a.hsize == b.hsize,
        a.cells.len() == b.cells.len(),
        0 <= x < a.cells.len(),
        b.cells[x].cand == a.cells[x].cand,
        b.cells[x].cand_limit == a.cells[x].cand_limit,
        forall|u: int|
            0 <= u < a.cells.len() && is_peer(a.bsize as int, a.hsize as int, x, u)
                ==> (#[trigger] b.cells[u]).digit == a.cells[u].digit,
        cell_cands_exact(a, x),
    ensures
        cell_cands_exact(b, x),
{
    lemma_cand_ok_frame(a, b, x);
}

/// Two strictly ascending lists with the same members are the same list.
pub proof fn lemma_sorted_same_members(a: Seq<u16>, b: Seq<u16>)
    requires
        strictly_sorted(a),
        strictly_sorted(b),
        forall|v: u16| a.contains(v) <==> b.contains(v),
    ensures
        a == b,
    decreases a.len(),
{
    if a.len() == 0 {
        if b.len() > 0 {
            assert(a.contains(b[0]));
        }
        assert(a =~= b);
    } else {
        assert(b.contains(a[0]));
        assert(a.contains(b[0]));
        let ka = choose|k: int| 0 <= k < a.len() && a[k] == b[0];
        let kb = choose|k: int| 0 <= k < b.len() && b[k] == a[0];
        assert(a[0] <= a[ka] && b[0] <= b[kb]);
        assert(a[0] == b[0]);
        let at = a.drop_first();
        let bt = b.drop_first();
        assert forall|v: u16| at.contains(v) implies bt.contains(v) by {
            let k = choose|k: int| 0 <= k < at.len() && at[k] == v;
            assert(a[k + 1] == v);
            assert(a.contains(v));
            assert(v > a[0]);
            let m = choose|m: int| 0 <= m < b.len() && b[m] == v;
            assert(m != 0);
            assert(bt[m - 1] == v);
        }
        assert forall|v: u16| bt.contains(v) implies at.contains(v) by {
            let k = choose|k: int| 0 <= k < bt.len() && bt[k] == v;
            assert(b[k + 1] == v);
            assert(b.contains(v));
            assert(v > b[0]);
            let m = choose|m: int| 0 <= m < a.len() && a[m] == v;
            assert(m != 0);
            assert(at[m - 1] == v);
        }
        lemma_sorted_same_members(at, bt);
        assert(a.len() == b.len());
        assert forall|i: int| 0 <= i < a.len() implies a[i] == b[i] by {
            if i > 0 {
                assert(a[i] == at[i - 1] && b[i] == bt[i - 1]);
            }
        }
        assert(a =~= b);
    }
}

/// An exclusion list (no duplicates, values in 1..=n) that is still
/// missing some admissible value has room left: it is shorter than `n`.
pub proof fn lemma_excl_room(s: Seq<u16>, n: int, v: u16)
    requires
        s.no_duplicates(),
        forall|x: u16| #[trigger] s.contains(x) ==> 1 <= x <= n,
        1 <= v <= n,
        !s.contains(v),
    ensures
        s.len() < n,
{
    let si = s.map_values(|x: u16| x as int);
    assert(si.no_duplicates()) by {
        assert forall|a: int, b: int| 0 <= a < b < si.len() implies si[a] != si[b] by {
            assert(s[a] != s[b]);
        }
    }
    si.unique_seq_to_set();
    let rng = vstd::set_lib::set_int_range(1, n + 1);
    vstd::set_lib::lemma_int_range(1, n + 1);
    let rng2 = rng.remove(v as int);
    assert(rng2.len() == n - 1) by {
        assert(rng.contains(v as int));
    }
    assert(si.to_set().subset_of(rng2)) by {
        assert forall|x: int| si.to_set().contains(x) implies rng2.contains(x) by {
            assert(si.contains(x));
            let k = choose|k: int| 0 <= k < si.len() && si[k] == x;
            assert(s[k] as int == x);
            assert(s.contains(s[k]));
            assert(s[k] != v);
        }
    }
    vstd::set_lib::lemma_len_subset(si.to_set(), rng2);
}

/// A complete, internally valid assignment of the whole grid: one value in
/// 1..=n per cell, no two peers equal.
pub open spec fn full_assignment_ok(n: int, h: int, s: Seq<u16>) -> bool {
    &&& s.len() == n * n
    &&& (forall|t: int| 0 <= t < s.len() ==> 1 <= #[trigger] s[t] <= n)
    &&& (forall|t1: int, t2: int|
        0 <= t1 < s.len() && 0 <= t2 < s.len() && #[trigger] is_peer(n, h, t1, t2) ==> s[t1]
            != s[t2])
}

/// The board still admits the complete assignment `s`: `s` is valid,
/// agrees with every digit already on the board, and uses no value a
/// cell's exclusion list has ruled out.
pub open spec fn admits(b: BoardModel, s: Seq<u16>) -> bool {
    &&& full_assignment_ok(b.bsize as int, b.hsize as int, s)
    &&& (forall|t: int|
        0 <= t < b.cells.len() && (#[trigger] b.cells[t]).digit != 0 ==> s[t] == b.cells[t].digit)
    &&& (forall|t: int|
        0 <= t < b.cells.len() ==> !(#[trigger] b.cells[t]).cand_limit.contains(s[t]))
}

/// An exact candidate set over-approximates every admitted assignment: the
/// value `s` puts in an unassigned cell is one of its candidates. In
/// particular a cell with an empty candidate set admits nothing.
pub proof fn lemma_admitted_value_is_candidate(b: BoardModel, t: int, s: Seq<u16>)
    requires
        wf(b),
        0 <= t < b.cells.len(),
        b.cells[t].digit == 0,
        cell_cands_exact(b, t),
        admits(b, s),
    ensures
        b.cells[t].cand.contains(s[t]),
{
    let n = b.bsize as int;
    let h = b.hsize as int;
    assert(cand_ok(b, t, s[t])) by {
        assert(1 <= s[t] <= n);
        assert(!b.cells[t].cand_limit.contains(s[t]));
        assert forall|u: int|
            0 <= u < b.cells.len() && #[trigger] is_peer(n, h, t, u) implies b.cells[u].digit
            != s[t] by {
            if b.cells[u].digit != 0 {
                assert(s[u] == b.cells[u].digit);
                assert(s[t] != s[u]);
            }
        }
    }
}

} // verus!

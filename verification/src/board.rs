//! The executable board: cells with their digit, peer lists, candidate set
//! and exclusion list, and the board built once from an input grid.
use vstd::prelude::*;

use crate::model::{cell_topo_ok, col_of, flat_grid, is_peer, row_of, same_col, same_house,
    same_row, strictly_increasing, wf, wf_cell, BoardModel, CellModel};

verus! {

broadcast use vstd::seq_lib::lemma_seq_contains_after_push;

/// One grid position. `digit == 0` means unassigned. The peer lists hold
/// flat indices (`row * bsize + col`) and are built once by `Board::init`.
pub struct Cell {
    pub(crate) digit: u16,
    pub(crate) row: Vec<usize>,
    pub(crate) col: Vec<usize>,
    pub(crate) house: Vec<usize>,
    pub(crate) aoe: Vec<usize>,
    pub(crate) cand: Vec<u16>,
    pub(crate) cand_limit: Vec<u16>,
    pub(crate) was_empty: bool,
    pub(crate) known: bool,
}

impl View for Cell {
    type V = CellModel;

    open(crate) spec fn view(&self) -> CellModel {
        CellModel {
            digit: self.digit,
            row: self.row@,
            col: self.col@,
            house: self.house@,
            aoe: self.aoe@,
            cand: self.cand@,
            cand_limit: self.cand_limit@,
            was_empty: self.was_empty,
            known: self.known,
        }
    }
}

impl Cell {
    /// A blank cell with no digit, no peers and no candidates.
    pub fn new() -> (c: Cell)
        ensures
            c@.digit == 0,
            c@.row.len() == 0,
            c@.col.len() == 0,
            c@.house.len() == 0,
            c@.aoe.len() == 0,
            c@.cand.len() == 0,
            c@.cand_limit.len() == 0,
            !c@.was_empty,
            !c@.known,
    {
        Cell {
            digit: 0,
            row: Vec::new(),
            col: Vec::new(),
            house: Vec::new(),
            aoe: Vec::new(),
            cand: Vec::new(),
            cand_limit: Vec::new(),
            was_empty: false,
            known: false,
        }
    }
}

/// The whole board: side length, house side length, the last forced
/// assignment, the cells in row-major order, and the solved flag.
pub struct Board {
    pub(crate) bsize: usize,
    pub(crate) hsize: usize,
    pub(crate) last_modified: (usize, usize, u16),
    pub(crate) cell: Vec<Cell>,
    pub(crate) solved: bool,
    pub(crate) clues: Ghost<Seq<u16>>,
}

impl View for Board {
    type V = BoardModel;

    open(crate) spec fn view(&self) -> BoardModel {
        BoardModel {
            bsize: self.bsize,
            hsize: self.hsize,
            last_modified: self.last_modified,
            cells: Seq::new(self.cell@.len(), |t: int| self.cell@[t]@),
            solved: self.solved,
            clues: self.clues@,
        }
    }
}

/// Integer square root, by counting up; the board sides in play are small.
pub(crate) fn isqrt(x: usize) -> (r: usize)
    requires
        x <= 0xFFFF,
    ensures
        r * r <= x < (r + 1) * (r + 1),
        r <= 0xFF,
{
    let mut r: usize = 0;
    #[verifier::loop_isolation(true)]
    loop
        invariant
            r * r <= x,
            r <= 0xFF,
            x <= 0xFFFF,
        ensures
            r * r <= x < (r + 1) * (r + 1),
            r <= 0xFF,
        decreases 0x100 - r,
    {
        assert((r + 1) * (r + 1) <= 0x10000) by (nonlinear_arith)
            requires
                r <= 0xFF,
        ;
        let next = (r + 1) * (r + 1);
        if next > x {
            break ;
        }
        r = r + 1;
        assert(r <= 0xFF) by (nonlinear_arith)
            requires
                r * r <= x <= 0xFFFF,
        ;
    }
    r
}

/// Flat row-major index of (i, j) splits back into i and j.
pub proof fn lemma_flat_facts(n: int, a: int, b: int)
    requires
        n >= 1,
        0 <= a < n,
        0 <= b < n,
    ensures
        (a * n + b) / n == a,
        (a * n + b) % n == b,
        0 <= a * n + b < n * n,
{
    vstd::arithmetic::div_mod::lemma_fundamental_div_mod_converse(a * n + b, n, a, b);
    assert(a * n + b < n * n) by (nonlinear_arith)
        requires
            0 <= a < n && 0 <= b < n,
    ;
}

/// `x` lies in band `x / h`: the `h` consecutive values starting at
/// `(x / h) * h`, and conversely.
pub proof fn lemma_band_facts(h: int, x: int)
    requires
        h >= 1,
        x >= 0,
    ensures
        (x / h) * h <= x < (x / h) * h + h,
        x / h >= 0,
{
    vstd::arithmetic::div_mod::lemma_fundamental_div_mod(x, h);
    vstd::arithmetic::div_mod::lemma_mod_bound(x, h);
    vstd::arithmetic::div_mod::lemma_div_pos_is_pos(x, h);
    assert((x / h) * h == h * (x / h)) by (nonlinear_arith);
}

/// Conversely, values in the band starting at `q * h` divide to `q`.
pub proof fn lemma_in_band(h: int, q: int, x: int)
    requires
        h >= 1,
        q >= 0,
        q * h <= x < q * h + h,
    ensures
        x / h == q,
{
    vstd::arithmetic::div_mod::lemma_fundamental_div_mod_converse(x, h, q, x - q * h);
}

/// Splitting a flat index into row and column and recombining them.
pub proof fn lemma_split(n: int, u: int)
    requires
        n >= 1,
        0 <= u,
    ensures
        u == row_of(n, u) * n + col_of(n, u),
        0 <= col_of(n, u) < n,
        0 <= row_of(n, u),
        u < n * n ==> row_of(n, u) < n,
{
    vstd::arithmetic::div_mod::lemma_fundamental_div_mod(u, n);
    vstd::arithmetic::div_mod::lemma_mod_bound(u, n);
    vstd::arithmetic::div_mod::lemma_div_pos_is_pos(u, n);
    assert(u == (u / n) * n + u % n) by (nonlinear_arith)
        requires
            n >= 1 && u == n * (u / n) + u % n,
    ;
    let q = u / n;
    let r = u % n;
    if u < n * n && q >= n {
        assert(false) by (nonlinear_arith)
            requires
                n >= 1 && u == q * n + r && 0 <= r && q >= n && u < n * n,
        ;
    }
}

/// Flat row-major index, proved in bounds.
pub(crate) fn flat(i: usize, j: usize, n: usize) -> (t: usize)
    requires
        i < n,
        j < n,
        n <= 0xFFFF,
    ensures
        t == i * n + j,
        t < n * n,
        n * n <= 0xFFFF_FFFF,
        row_of(n as int, t as int) == i,
        col_of(n as int, t as int) == j,
{
    proof {
        lemma_flat_facts(n as int, i as int, j as int);
        assert(n * n <= 0xFFFF_FFFF) by (nonlinear_arith)
            requires
                n <= 0xFFFF,
        ;
    }
    i * n + j
}

/// The row peers of (i, j): every cell of row i but (i, j) itself, in
/// ascending column order.
fn build_row_peers(n: usize, i: usize, j: usize) -> (out: Vec<usize>)
    requires
        i < n,
        j < n,
        n <= 0xFFFF,
    ensures
        forall|u: usize| #[trigger]
            out@.contains(u) <==> u < n * n && u as int != i * n + j && same_row(
                n as int,
                i * n + j,
                u as int,
            ),
        strictly_increasing(out@),
        out@.len() == n - 1,
{
    let ghost t = i * n + j;
    proof {
        lemma_flat_facts(n as int, i as int, j as int);
    }
    let mut out: Vec<usize> = Vec::new();
    let mut k: usize = 0;
    while k < n
        invariant
            k <= n,
            forall|u: usize| #[trigger]
                out@.contains(u) <==> u < n * n && u as int != t && same_row(
                    n as int,
                    t as int,
                    u as int,
                ) && col_of(n as int, u as int) < k,
            strictly_increasing(out@),
            forall|m: int| 0 <= m < out@.len() ==> (#[trigger] out@[m]) < i * n + k,
            out@.len() == if k <= j {
                k as int
            } else {
                k - 1
            },
        decreases n - k,
    {
        let ghost prev = out@;
        if k != j {
            let u0 = flat(i, k, n);
            out.push(u0);
            proof {
                assert(out@ == prev.push(u0));
                assert forall|u: usize|
                    u < n * n && u as int != t && same_row(n as int, t as int, u as int) && col_of(
                        n as int,
                        u as int,
                    ) < k + 1 implies out@.contains(u) by {
                    lemma_split(n as int, u as int);
                    if col_of(n as int, u as int) < k {
                        assert(prev.contains(u));
                    } else {
                        assert(u as int == i * n + k);
                        assert(u == u0);
                        assert(out@.last() == u0);
                    }
                }
                assert forall|u: usize| #[trigger]
                    out@.contains(u) implies u < n * n && u as int != t && same_row(
                        n as int,
                        t as int,
                        u as int,
                    ) && col_of(n as int, u as int) < k + 1 by {
                    if !prev.contains(u) {
                        assert(u == u0);
                        lemma_flat_facts(n as int, i as int, k as int);
                    }
                }
            }
        } else {
            proof {
                assert forall|u: usize|
                    u < n * n && u as int != t && same_row(n as int, t as int, u as int) && col_of(
                        n as int,
                        u as int,
                    ) < k + 1 implies out@.contains(u) by {
                    lemma_split(n as int, u as int);
                    if col_of(n as int, u as int) == k {
                        assert(u as int == i * n + k);
                        assert(u as int == t);
                    }
                }
            }
        }
        k = k + 1;
    }
    proof {
        assert forall|u: usize|
            u < n * n && u as int != t && same_row(n as int, t as int, u as int) implies
            out@.contains(u) by {
            lemma_split(n as int, u as int);
        }
    }
    out
}

/// The column peers of (i, j): every cell of column j but (i, j) itself,
/// in ascending row order.
fn build_col_peers(n: usize, i: usize, j: usize) -> (out: Vec<usize>)
    requires
        i < n,
        j < n,
        n <= 0xFFFF,
    ensures
        forall|u: usize| #[trigger]
            out@.contains(u) <==> u < n * n && u as int != i * n + j && same_col(
                n as int,
                i * n + j,
                u as int,
            ),
        strictly_increasing(out@),
        out@.len() == n - 1,
{
    let ghost t = i * n + j;
    proof {
        lemma_flat_facts(n as int, i as int, j as int);
    }
    let mut out: Vec<usize> = Vec::new();
    let mut k: usize = 0;
    while k < n
        invariant
            k <= n,
            forall|u: usize| #[trigger]
                out@.contains(u) <==> u < n * n && u as int != t && same_col(
                    n as int,
                    t as int,
                    u as int,
                ) && row_of(n as int, u as int) < k,
            strictly_increasing(out@),
            forall|m: int| 0 <= m < out@.len() ==> (#[trigger] out@[m]) < k * n + j,
            out@.len() == if k <= i {
                k as int
            } else {
                k - 1
            },
        decreases n - k,
    {
        let ghost prev = out@;
        if k != i {
            let u0 = flat(k, j, n);
            out.push(u0);
            proof {
                assert(out@ == prev.push(u0));
                assert forall|u: usize|
                    u < n * n && u as int != t && same_col(n as int, t as int, u as int) && row_of(
                        n as int,
                        u as int,
                    ) < k + 1 implies out@.contains(u) by {
                    lemma_split(n as int, u as int);
                    if row_of(n as int, u as int) < k {
                        assert(prev.contains(u));
                    } else {
                        assert(u as int == k * n + j);
                        assert(u == u0);
                        assert(out@.last() == u0);
                    }
                }
                assert forall|u: usize| #[trigger]
                    out@.contains(u) implies u < n * n && u as int != t && same_col(
                        n as int,
                        t as int,
                        u as int,
                    ) && row_of(n as int, u as int) < k + 1 by {
                    if !prev.contains(u) {
                        assert(u == u0);
                        lemma_flat_facts(n as int, k as int, j as int);
                    }
                }
            }
        } else {
            proof {
                assert forall|u: usize|
                    u < n * n && u as int != t && same_col(n as int, t as int, u as int) && row_of(
                        n as int,
                        u as int,
                    ) < k + 1 implies out@.contains(u) by {
                    lemma_split(n as int, u as int);
                    if row_of(n as int, u as int) == k {
                        assert(u as int == k * n + j);
                        assert(u as int == t);
                    }
                }
            }
        }
        proof {
            assert(((k + 1) as int) * n + j == k * n + j + n) by (nonlinear_arith);
        }
        k = k + 1;
    }
    proof {
        assert forall|u: usize|
            u < n * n && u as int != t && same_col(n as int, t as int, u as int) implies
            out@.contains(u) by {
            lemma_split(n as int, u as int);
        }
    }
    out
}

/// Position `x` (a row or column index) lies in a band of `h` consecutive
/// indices that stays inside a side of length `h * h`.
pub proof fn lemma_house_bounds(h: int, x: int)
    requires
        h >= 1,
        0 <= x < h * h,
    ensures
        0 <= x / h < h,
        (x / h) * h + h <= h * h,
        (x / h) * h <= x < (x / h) * h + h,
{
    lemma_band_facts(h, x);
    let q = x / h;
    if q >= h {
        assert(false) by (nonlinear_arith)
            requires
                h >= 1 && q * h <= x && q >= h && x < h * h,
        ;
    }
    assert(q * h + h <= h * h) by (nonlinear_arith)
        requires
            h >= 1 && q < h,
    ;
}

/// The house peers of (i, j): the other cells of its `h` by `h` block, in
/// row-major order from the block's top-left corner.
fn build_house_peers(n: usize, h: usize, i: usize, j: usize) -> (out: Vec<usize>)
    requires
        i < n,
        j < n,
        n <= 0xFFFF,
        h * h == n,
    ensures
        forall|u: usize| #[trigger]
            out@.contains(u) <==> u < n * n && u as int != i * n + j && same_house(
                n as int,
                h as int,
                i * n + j,
                u as int,
            ),
        strictly_increasing(out@),
        out@.len() == (h as int) * (h as int) - 1,
{
    let ghost t = i * n + j;
    proof {
        lemma_flat_facts(n as int, i as int, j as int);
        lemma_house_bounds(h as int, i as int);
        lemma_house_bounds(h as int, j as int);
    }
    let hy = (i / h) * h;
    let hx = (j / h) * h;
    let ghost si = (i - hy) * (h as int) + (j - hx);
    proof {
        assert(0 <= i - hy < h && 0 <= j - hx < h);
        lemma_flat_facts(h as int, i as int - hy, j as int - hx);
        assert(0 <= si < (h as int) * (h as int));
    }
    let mut out: Vec<usize> = Vec::new();
    proof {
        assert forall|u: usize|
            !(u < n * n && u as int != t && same_house(n as int, h as int, t as int, u as int)
                && row_of(n as int, u as int) < hy) by {
            if u < n * n && same_house(n as int, h as int, t as int, u as int) {
                lemma_split(n as int, u as int);
                lemma_band_facts(h as int, row_of(n as int, u as int));
            }
        }
    }
    let mut k: usize = 0;
    while k < h
        invariant
            k <= h,
            forall|u: usize| #[trigger]
                out@.contains(u) <==> u < n * n && u as int != t && same_house(
                    n as int,
                    h as int,
                    t as int,
                    u as int,
                ) && row_of(n as int, u as int) < hy + k,
            strictly_increasing(out@),
            forall|m: int| 0 <= m < out@.len() ==> (#[trigger] out@[m]) < (hy + k) * n + hx,
            out@.len() == k * h - (if k * h > si {
                1int
            } else {
                0int
            }),
        decreases h - k,
    {
        proof {
            assert forall|u: usize|
                (u < n * n && u as int != t && same_house(n as int, h as int, t as int, u as int)
                    && row_of(n as int, u as int) == hy + k && col_of(n as int, u as int) < hx)
                    implies false by {
                if u < n * n && same_house(n as int, h as int, t as int, u as int) {
                    lemma_split(n as int, u as int);
                    lemma_band_facts(h as int, col_of(n as int, u as int));
                }
            }
        }
        proof {
            assert(k * h <= k * h + 0);
        }
        let mut l: usize = 0;
        while l < h
            invariant
                l <= h,
                k < h,
                forall|u: usize| #[trigger]
                    out@.contains(u) <==> u < n * n && u as int != t && same_house(
                        n as int,
                        h as int,
                        t as int,
                        u as int,
                    ) && (row_of(n as int, u as int) < hy + k || (row_of(n as int, u as int) == hy
                        + k && col_of(n as int, u as int) < hx + l)),
                strictly_increasing(out@),
                forall|m: int|
                    0 <= m < out@.len() ==> (#[trigger] out@[m]) < (hy + k) * n + (hx + l),
                out@.len() == k * h + l - (if k * h + l > si {
                    1int
                } else {
                    0int
                }),
            decreases h - l,
        {
            let ghost prev = out@;
            let r0 = hy + k;
            let c0 = hx + l;
            if i != r0 || j != c0 {
                let u0 = flat(r0, c0, n);
                out.push(u0);
                proof {
                    assert(out@ == prev.push(u0));
                    lemma_in_band(h as int, i as int / (h as int), r0 as int);
                    lemma_in_band(h as int, j as int / (h as int), c0 as int);
                    assert(same_house(n as int, h as int, t as int, u0 as int));
                    // this cell is not the centre, so its scan index is not
                    // the centre's scan index.
                    assert(k * h + l != si) by {
                        if k * h + l == si {
                            lemma_flat_facts(h as int, k as int, l as int);
                            assert(k == i - hy && l == j - hx);
                        }
                    }
                    assert forall|u: usize|
                        u < n * n && u as int != t && same_house(
                            n as int,
                            h as int,
                            t as int,
                            u as int,
                        ) && (row_of(n as int, u as int) < hy + k || (row_of(n as int, u as int)
                            == hy + k && col_of(n as int, u as int) < hx + l
                            + 1)) implies out@.contains(u) by {
                        lemma_split(n as int, u as int);
                        if row_of(n as int, u as int) == hy + k && col_of(n as int, u as int) == hx
                            + l {
                            assert(u as int == r0 * n + c0);
                            assert(u == u0);
                        } else {
                            assert(prev.contains(u));
                        }
                    }
                }
            } else {
                proof {
                    assert forall|u: usize|
                        u < n * n && u as int != t && same_house(
                            n as int,
                            h as int,
                            t as int,
                            u as int,
                        ) && (row_of(n as int, u as int) < hy + k || (row_of(n as int, u as int)
                            == hy + k && col_of(n as int, u as int) < hx + l
                            + 1)) implies out@.contains(u) by {
                        lemma_split(n as int, u as int);
                        if row_of(n as int, u as int) == hy + k && col_of(n as int, u as int) == hx
                            + l {
                            assert(u as int == t);
                        }
                    }
                }
            }
            l = l + 1;
        }
        proof {
            assert forall|u: usize| #[trigger]
                out@.contains(u) implies u < n * n && u as int != t && same_house(
                    n as int,
                    h as int,
                    t as int,
                    u as int,
                ) && row_of(n as int, u as int) < hy + k + 1 by {
                lemma_band_facts(h as int, row_of(n as int, u as int));
            }
            assert forall|u: usize|
                u < n * n && u as int != t && same_house(n as int, h as int, t as int, u as int)
                    && row_of(n as int, u as int) < hy + k + 1 implies out@.contains(u) by {
                lemma_split(n as int, u as int);
                lemma_band_facts(h as int, col_of(n as int, u as int));
                assert((col_of(n as int, u as int) / (h as int)) * (h as int) == hx);
                assert(col_of(n as int, u as int) < hx + h);
            }
            assert((k + 1) as int * (h as int) == k as int * (h as int) + h) by (nonlinear_arith);
            assert((hy + k + 1) as int * (n as int) == (hy + k) as int * (n as int) + n)
                by (nonlinear_arith);
            assert(h <= n) by (nonlinear_arith)
                requires
                    h >= 1 && (h as int) * (h as int) == n as int,
            ;
        }
        k = k + 1;
    }
    proof {
        assert forall|u: usize|
            u < n * n && u as int != t && same_house(
                n as int,
                h as int,
                t as int,
                u as int,
            ) implies out@.contains(u) by {
            lemma_split(n as int, u as int);
            lemma_band_facts(h as int, row_of(n as int, u as int));
            assert((row_of(n as int, u as int) / (h as int)) * (h as int) == hy);
            assert(row_of(n as int, u as int) < hy + h);
        }
    }
    out
}

/// Appending a fresh index keeps a list duplicate-free.
proof fn lemma_nodup_push(s: Seq<usize>, v: usize)
    requires
        s.no_duplicates(),
        !s.contains(v),
    ensures
        s.push(v).no_duplicates(),
{
    assert forall|a: int, b: int| 0 <= a < b < s.push(v).len() implies s.push(v)[a] != s.push(
        v,
    )[b] by {
        if b == s.len() as int {
            assert(s.contains(s[a]));
        }
    }
}

/// The area-of-effect of (i, j): its house peers, then the rest of its row
/// right of the house and left of it, then the rest of its column below
/// the house and above it — every peer exactly as the peer relation names
/// them.
fn build_aoe(n: usize, h: usize, i: usize, j: usize) -> (out: Vec<usize>)
    requires
        i < n,
        j < n,
        n <= 0xFFFF,
        h * h == n,
    ensures
        forall|u: usize| #[trigger]
            out@.contains(u) <==> u < n * n && is_peer(n as int, h as int, i * n + j, u as int),
        out@.no_duplicates(),
        out@.len() == 2 * (n as int) + (h as int) * (h as int) - 2 * (h as int) - 1,
{
    let ghost t = i * n + j;
    proof {
        lemma_flat_facts(n as int, i as int, j as int);
        lemma_house_bounds(h as int, i as int);
        lemma_house_bounds(h as int, j as int);
    }
    let hy = (i / h) * h;
    let hx = (j / h) * h;
    let mut out: Vec<usize> = build_house_peers(n, h, i, j);
    let ghost house_part = |u: usize|
        u < n * n && u as int != t && same_house(n as int, h as int, t as int, u as int);
    proof {
        // the house list is strictly increasing, hence duplicate-free.
        assert forall|a: int, b: int| 0 <= a < b < out@.len() implies out@[a] != out@[b] by {}
        assert(out@.no_duplicates());
    }

    // Row cells right of the house band.
    let mut k: usize = hx + h;
    while k < n
        invariant
            hx + h <= k <= n || (hx + h > n && k == hx + h),
            forall|u: usize| #[trigger]
                out@.contains(u) <==> house_part(u) || (u < n * n && row_of(n as int, u as int)
                    == i && hx + h <= col_of(n as int, u as int) < k),
            out@.no_duplicates(),
            out@.len() == (h as int) * (h as int) - 1 + (k - (hx + h)),
        decreases n - k,
    {
        let ghost prev = out@;
        let u0 = flat(i, k, n);
        out.push(u0);
        proof {
            assert(!prev.contains(u0)) by {
                if house_part(u0) {
                    lemma_band_facts(h as int, k as int);
                    assert((k as int / (h as int)) * (h as int) == hx);
                }
            }
            lemma_nodup_push(prev, u0);
            assert(out@ == prev.push(u0));
            assert forall|u: usize|
                house_part(u) || (u < n * n && row_of(n as int, u as int) == i && hx + h <= col_of(
                    n as int,
                    u as int,
                ) < k + 1) implies out@.contains(u) by {
                if !house_part(u) && u < n * n && col_of(n as int, u as int) == k {
                    lemma_split(n as int, u as int);
                    assert(u == u0);
                }
            }
        }
        k = k + 1;
    }

    // Row cells left of the house band.
    let mut k: usize = 0;
    while k < hx
        invariant
            k <= hx,
            forall|u: usize| #[trigger]
                out@.contains(u) <==> house_part(u) || (u < n * n && row_of(n as int, u as int)
                    == i && hx + h <= col_of(n as int, u as int) < n) || (u < n * n && row_of(
                    n as int,
                    u as int,
                ) == i && col_of(n as int, u as int) < k),
            out@.no_duplicates(),
            out@.len() == (h as int) * (h as int) - 1 + (n - (hx + h)) + k,
        decreases hx - k,
    {
        let ghost prev = out@;
        let u0 = flat(i, k, n);
        out.push(u0);
        proof {
            assert(!prev.contains(u0)) by {
                if house_part(u0) {
                    lemma_band_facts(h as int, k as int);
                    assert((k as int / (h as int)) * (h as int) == hx);
                    assert(hx <= k);
                }
            }
            lemma_nodup_push(prev, u0);
            assert(out@ == prev.push(u0));
            assert forall|u: usize|
                house_part(u) || (u < n * n && row_of(n as int, u as int) == i && hx + h <= col_of(
                    n as int,
                    u as int,
                ) < n) || (u < n * n && row_of(n as int, u as int) == i && col_of(
                    n as int,
                    u as int,
                ) < k + 1) implies out@.contains(u) by {
                if !house_part(u) && u < n * n && row_of(n as int, u as int) == i && col_of(
                    n as int,
                    u as int,
                ) == k {
                    lemma_split(n as int, u as int);
                    assert(u == u0);
                }
            }
        }
        k = k + 1;
    }
    let ghost row_part = |u: usize|
        u < n * n && row_of(n as int, u as int) == i && col_of(n as int, u as int) / (h as int)
            != (j as int) / (h as int);
    proof {
        assert forall|u: usize| #[trigger] out@.contains(u) <==> house_part(u) || row_part(
            u,
        ) by {
            if u < n * n && row_of(n as int, u as int) == i {
                lemma_split(n as int, u as int);
                let c = col_of(n as int, u as int);
                lemma_band_facts(h as int, c);
                if hx <= c < hx + h {
                    lemma_in_band(h as int, (j as int) / (h as int), c);
                }
                if c / (h as int) == (j as int) / (h as int) {
                    assert((c / (h as int)) * (h as int) == hx);
                }
            }
        }
    }

    // Column cells below the house band.
    let mut k: usize = hy + h;
    while k < n
        invariant
            hy + h <= k <= n || (hy + h > n && k == hy + h),
            forall|u: usize| #[trigger]
                out@.contains(u) <==> house_part(u) || row_part(u) || (u < n * n && col_of(
                    n as int,
                    u as int,
                ) == j && hy + h <= row_of(n as int, u as int) < k),
            out@.no_duplicates(),
            out@.len() == (h as int) * (h as int) - 1 + (n - (hx + h)) + hx + (k - (hy + h)),
        decreases n - k,
    {
        let ghost prev = out@;
        let u0 = flat(k, j, n);
        out.push(u0);
        proof {
            assert(!prev.contains(u0)) by {
                assert(i < hy + h);
                if house_part(u0) {
                    lemma_band_facts(h as int, k as int);
                    assert((k as int / (h as int)) * (h as int) == hy);
                }
            }
            lemma_nodup_push(prev, u0);
            assert(out@ == prev.push(u0));
            assert forall|u: usize|
                house_part(u) || row_part(u) || (u < n * n && col_of(n as int, u as int) == j && hy
                    + h <= row_of(n as int, u as int) < k + 1) implies out@.contains(u) by {
                if !house_part(u) && !row_part(u) && u < n * n && row_of(n as int, u as int)
                    == k {
                    lemma_split(n as int, u as int);
                    assert(u == u0);
                }
            }
        }
        k = k + 1;
    }

    // Column cells above the house band.
    let mut k: usize = 0;
    while k < hy
        invariant
            k <= hy,
            forall|u: usize| #[trigger]
                out@.contains(u) <==> house_part(u) || row_part(u) || (u < n * n && col_of(
                    n as int,
                    u as int,
                ) == j && hy + h <= row_of(n as int, u as int) < n) || (u < n * n && col_of(
                    n as int,
                    u as int,
                ) == j && row_of(n as int, u as int) < k),
            out@.no_duplicates(),
            out@.len() == (h as int) * (h as int) - 1 + (n - (hx + h)) + hx + (n - (hy + h)) + k,
        decreases hy - k,
    {
        let ghost prev = out@;
        let u0 = flat(k, j, n);
        out.push(u0);
        proof {
            assert(!prev.contains(u0)) by {
                assert(hy <= i);
                if house_part(u0) {
                    lemma_band_facts(h as int, k as int);
                    assert((k as int / (h as int)) * (h as int) == hy);
                    assert(hy <= k);
                }
            }
            lemma_nodup_push(prev, u0);
            assert(out@ == prev.push(u0));
            assert forall|u: usize|
                house_part(u) || row_part(u) || (u < n * n && col_of(n as int, u as int) == j && hy
                    + h <= row_of(n as int, u as int) < n) || (u < n * n && col_of(
                    n as int,
                    u as int,
                ) == j && row_of(n as int, u as int) < k + 1) implies out@.contains(u) by {
                if !house_part(u) && !row_part(u) && u < n * n && col_of(n as int, u as int) == j
                    && row_of(n as int, u as int) == k {
                    lemma_split(n as int, u as int);
                    assert(u == u0);
                }
            }
        }
        k = k + 1;
    }

    proof {
        assert forall|u: usize| #[trigger]
            out@.contains(u) <==> u < n * n && is_peer(n as int, h as int, t as int, u as int) by {
            if u < n * n {
                lemma_split(n as int, u as int);
                let r = row_of(n as int, u as int);
                let c = col_of(n as int, u as int);
                lemma_band_facts(h as int, r);
                lemma_band_facts(h as int, c);
                if r / (h as int) == (i as int) / (h as int) {
                    assert((r / (h as int)) * (h as int) == hy);
                }
                if c / (h as int) == (j as int) / (h as int) {
                    assert((c / (h as int)) * (h as int) == hx);
                }
                if hy <= r < hy + h {
                    lemma_in_band(h as int, (i as int) / (h as int), r);
                }
                if hx <= c < hx + h {
                    lemma_in_band(h as int, (j as int) / (h as int), c);
                }
                if r == i && c == j {
                    assert(u as int == t);
                }
            }
        }
    }
    out
}

/// What `init` has established of the first `len` cells it pushed.
pub(crate) open spec fn init_prefix_ok(b: BoardModel, n: int, h: int, len: int) -> bool {
    forall|t: int| 0 <= t < len ==> #[trigger] init_cell_ok(b.cells[t], b.clues[t], n, h, t)
}

/// What `init` establishes of each cell it pushes: the clue as digit, the
/// blank marker, empty candidate and exclusion lists, and exact topology.
pub(crate) open spec fn init_cell_ok(c: CellModel, clue: u16, n: int, h: int, t: int) -> bool {
    &&& c.digit == clue
    &&& clue <= n
    &&& c.was_empty == (clue == 0)
    &&& c.cand.len() == 0
    &&& c.cand_limit.len() == 0
    &&& !c.known
    &&& cell_topo_ok(c, n, h, t)
}

/// One fully wired cell for position (i, j) of a fresh board.
fn build_cell(n: usize, h: usize, i: usize, j: usize, d: u16) -> (c: Cell)
    requires
        i < n,
        j < n,
        n <= 0xFFFF,
        h * h == n,
        d <= n,
    ensures
        c@.digit == d,
        c@.was_empty == (d == 0),
        !c@.known,
        c@.cand.len() == 0,
        c@.cand_limit.len() == 0,
        cell_topo_ok(c@, n as int, h as int, i * n + j),
{
    let mut c = Cell::new();
    c.digit = d;
    if c.digit == 0 {
        c.was_empty = true;
    }
    c.row = build_row_peers(n, i, j);
    c.col = build_col_peers(n, i, j);
    c.house = build_house_peers(n, h, i, j);
    c.aoe = build_aoe(n, h, i, j);
    c
}

/// An exact copy of a digit list.
pub(crate) fn copy_u16s(v: &Vec<u16>) -> (r: Vec<u16>)
    ensures
        r@ == v@,
{
    let mut r: Vec<u16> = Vec::new();
    let mut k: usize = 0;
    while k < v.len()
        invariant
            k <= v@.len(),
            r@ == v@.subrange(0, k as int),
        decreases v@.len() - k,
    {
        r.push(v[k]);
        proof {
            assert(r@ =~= v@.subrange(0, k + 1));
        }
        k = k + 1;
    }
    proof {
        assert(r@ =~= v@);
    }
    r
}

/// An exact copy of a peer-index list.
pub(crate) fn copy_usizes(v: &Vec<usize>) -> (r: Vec<usize>)
    ensures
        r@ == v@,
{
    let mut r: Vec<usize> = Vec::new();
    let mut k: usize = 0;
    while k < v.len()
        invariant
            k <= v@.len(),
            r@ == v@.subrange(0, k as int),
        decreases v@.len() - k,
    {
        r.push(v[k]);
        proof {
            assert(r@ =~= v@.subrange(0, k + 1));
        }
        k = k + 1;
    }
    proof {
        assert(r@ =~= v@);
    }
    r
}

/// An exact copy of a cell.
fn copy_cell(c: &Cell) -> (r: Cell)
    ensures
        r@ == c@,
{
    let r = Cell {
        digit: c.digit,
        row: copy_usizes(&c.row),
        col: copy_usizes(&c.col),
        house: copy_usizes(&c.house),
        aoe: copy_usizes(&c.aoe),
        cand: copy_u16s(&c.cand),
        cand_limit: copy_u16s(&c.cand_limit),
        was_empty: c.was_empty,
        known: c.known,
    };
    proof {
        assert(r@ =~= c@);
    }
    r
}

impl Board {
    /// A board shell of the given side length, holding no cells yet;
    /// `init` fills it from an input grid.
    pub fn new(bsize: usize) -> (b: Board)
        requires
            bsize <= 0xFFFF,
        ensures
            b@.bsize == bsize,
            (b@.hsize * b@.hsize <= bsize < (b@.hsize + 1) * (b@.hsize + 1)),
            b@.cells.len() == 0,
            b@.solved == true,
            b@.last_modified == (0usize, 0usize, 0u16),
            b@.clues.len() == 0,
    {
        let hsize = isqrt(bsize);
        Board {
            bsize,
            hsize,
            last_modified: (0, 0, 0),
            cell: Vec::new(),
            solved: true,
            clues: Ghost(Seq::empty()),
        }
    }

    /// An exact copy of the board, pushed onto the snapshot stack before a
    /// tentative assignment.
    pub fn snapshot(&self) -> (r: Board)
        ensures
            r@ == self@,
    {
        let mut cells: Vec<Cell> = Vec::new();
        let mut k: usize = 0;
        while k < self.cell.len()
            invariant
                k <= self.cell@.len(),
                cells@.len() == k,
                forall|m: int| 0 <= m < k ==> (#[trigger] cells@[m])@ == self.cell@[m]@,
            decreases self.cell@.len() - k,
        {
            let c = copy_cell(&self.cell[k]);
            cells.push(c);
            k = k + 1;
        }
        let r = Board {
            bsize: self.bsize,
            hsize: self.hsize,
            last_modified: self.last_modified,
            cell: cells,
            solved: self.solved,
            clues: Ghost(self.clues@),
        };
        proof {
            assert(r@.cells =~= self@.cells);
            assert(r@ =~= self@);
        }
        r
    }

    /// Fill a fresh board from an input grid (0 = blank, 1..=N = clue):
    /// assign each clue, record which cells began blank, and wire every
    /// cell's row, column, house and area-of-effect peer lists.
    pub fn init(&mut self, grid: &Vec<Vec<u16>>)
        requires
            old(self)@.cells.len() == 0,
            (old(self)@.hsize as int) * (old(self)@.hsize as int) == old(self)@.bsize as int,
            old(self)@.bsize <= 0xFFFF,
            grid@.len() == old(self)@.bsize,
            forall|i: int| 0 <= i < grid@.len() ==> (#[trigger] grid@[i])@.len() == old(self)@.bsize,
            forall|i: int, jj: int|
                0 <= i < grid@.len() && 0 <= jj < grid@.len() ==> (#[trigger] grid@[i]@[jj])
                    <= old(self)@.bsize,
        ensures
            wf(final(self)@),
            final(self)@.bsize == old(self)@.bsize,
            final(self)@.hsize == old(self)@.hsize,
            final(self)@.solved == old(self)@.solved,
            final(self)@.last_modified == old(self)@.last_modified,
            final(self)@.clues == flat_grid(grid@, old(self)@.bsize as int),
            forall|t: int|
                0 <= t < final(self)@.cells.len() ==> (#[trigger] final(self)@.cells[t]).digit
                    == final(self)@.clues[t] && final(self)@.cells[t].cand.len() == 0
                    && final(self)@.cells[t].cand_limit.len() == 0 && !final(self)@.cells[t].known,
    {
        let n = self.bsize;
        let h = self.hsize;
        proof {
            self.clues@ = flat_grid(grid@, n as int);
        }
        if n == 0 {
            return ;
        }
        let mut i: usize = 0;
        while i < n
            invariant
                i <= n,
                n >= 1,
                self.bsize == n,
                self.hsize == h,
                (h as int) * (h as int) == n as int,
                n <= 0xFFFF,
                self.solved == old(self).solved,
                self.last_modified == old(self).last_modified,
                self.clues@ == flat_grid(grid@, n as int),
                grid@.len() == n,
                forall|m: int| 0 <= m < grid@.len() ==> (#[trigger] grid@[m])@.len() == n,
                forall|m: int, jj: int|
                    0 <= m < grid@.len() && 0 <= jj < grid@.len() ==> (#[trigger] grid@[m]@[jj])
                        <= n,
                self.cell@.len() == i * n,
                i * n <= n * n,
                init_prefix_ok(self@, n as int, h as int, self.cell@.len() as int),
            decreases n - i,
        {
            let mut j: usize = 0;
            while j < n
                invariant
                    j <= n,
                    i < n,
                    self.cell@.len() == i * n + j,
                    i * n + j <= n * n,
                    self.bsize == n,
                    self.hsize == h,
                    self.solved == old(self).solved,
                    self.last_modified == old(self).last_modified,
                    self.clues@ == flat_grid(grid@, n as int),
                    init_prefix_ok(self@, n as int, h as int, self.cell@.len() as int),
                decreases n - j,
            {
                let ghost t = i * n + j;
                proof {
                    lemma_flat_facts(n as int, i as int, j as int);
                }
                let d = grid[i][j];
                let c = build_cell(n, h, i, j, d);
                let ghost pre = self@;
                self.cell.push(c);
                proof {
                    assert(self@.clues[t as int] == d);
                    assert(init_cell_ok(self@.cells[t as int], self@.clues[t as int], n as int, h as int, t as int));
                    assert forall|u: int| 0 <= u < self.cell@.len() implies #[trigger] init_cell_ok(
                        self@.cells[u],
                        self@.clues[u],
                        n as int,
                        h as int,
                        u,
                    ) by {
                        if u < pre.cells.len() {
                            assert(self@.cells[u] == pre.cells[u]);
                            assert(init_cell_ok(pre.cells[u], pre.clues[u], n as int, h as int, u));
                        }
                    }
                }
                j = j + 1;
            }
            i = i + 1;
            proof {
                assert(i * n == (i - 1) * n + n) by (nonlinear_arith);
                assert(i * n <= n * n) by (nonlinear_arith)
                    requires
                        i <= n,
                ;
            }
        }
        proof {
            assert(self.cell@.len() == n * n);
            assert forall|t: int| 0 <= t < self@.cells.len() implies #[trigger] wf_cell(
                self@,
                t,
            ) by {
                assert(init_cell_ok(self@.cells[t], self@.clues[t], n as int, h as int, t));
            }
            assert forall|t: int|
                0 <= t < self@.cells.len() implies (#[trigger] self@.cells[t]).digit
                    == self@.clues[t] && self@.cells[t].cand.len() == 0
                    && self@.cells[t].cand_limit.len() == 0 && !self@.cells[t].known by {
                assert(init_cell_ok(self@.cells[t], self@.clues[t], n as int, h as int, t));
            }
        }
    }
}

} // verus!

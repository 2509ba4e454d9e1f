//! Index geometry of the 9x9 board: rows, columns and 3x3 blocks over the
//! linear cell index space 0..81 (row-major, index = row * 9 + column).

use vstd::prelude::*;
use vstd::arithmetic::div_mod::lemma_fundamental_div_mod;
use vstd::arithmetic::div_mod::lemma_fundamental_div_mod_converse;

verus! {

/// A linear cell index that lies on the board.
pub open spec fn in_board(i: int) -> bool {
    0 <= i < 81
}

/// The two cells share a row.
pub open spec fn same_row(i: int, j: int) -> bool {
    i / 9 == j / 9
}

/// The two cells share a column.
pub open spec fn same_col(i: int, j: int) -> bool {
    i % 9 == j % 9
}

/// The two cells share a 3x3 block.
pub open spec fn same_block(i: int, j: int) -> bool {
    i / 27 == j / 27 && (i % 9) / 3 == (j % 9) / 3
}

/// The two cells share a row, a column or a block; a cell is a peer of
/// itself under this relation.
pub open spec fn peers_rel(i: int, j: int) -> bool {
    same_row(i, j) || same_col(i, j) || same_block(i, j)
}

/// The top-left index of the block containing `i`.
pub open spec fn block_base(i: int) -> int {
    (i / 27) * 27 + ((i % 9) / 3) * 3
}

/// The nine indices of the row of `i`, in increasing order.
pub open spec fn row_seq(i: int) -> Seq<int> {
    Seq::new(9, |k: int| (i / 9) * 9 + k)
}

/// The nine indices of the column of `i`, in increasing order.
pub open spec fn col_seq(i: int) -> Seq<int> {
    Seq::new(9, |k: int| i % 9 + 9 * k)
}

/// The nine indices of the block starting at `s`, row-major within the block.
pub open spec fn block_seq_from(s: int) -> Seq<int> {
    Seq::new(9, |k: int| s + k % 3 + 9 * (k / 3))
}

/// The nine indices of the block of `i`, row-major within the block.
pub open spec fn block_seq(i: int) -> Seq<int> {
    block_seq_from(block_base(i))
}

/// The 27 peer groups: rows 0..9, then columns 9..18, then blocks 18..27.
pub open spec fn group_seq(gi: int) -> Seq<int> {
    if gi < 9 {
        row_seq(9 * gi)
    } else if gi < 18 {
        col_seq(gi - 9)
    } else {
        block_seq_from(((gi - 18) / 3) * 27 + ((gi - 18) % 3) * 3)
    }
}

/// Row cells lie on the board, share the row of `i`, are pairwise distinct,
/// and every cell in that row occurs among them.
pub proof fn lemma_row_cells(i: int)
    requires
        in_board(i),
    ensures
        forall|k: int| 0 <= k < 9 ==> in_board(#[trigger] row_seq(i)[k]) && same_row(i, row_seq(i)[k]),
        forall|k1: int, k2: int|
            0 <= k1 < 9 && 0 <= k2 < 9 && k1 != k2 ==> #[trigger] row_seq(i)[k1]
                != #[trigger] row_seq(i)[k2],
        forall|j: int| in_board(j) && same_row(i, j) ==> j == row_seq(i)[j % 9],
{
    lemma_fundamental_div_mod(i, 9);
    let r = i / 9;
    assert forall|k: int| 0 <= k < 9 implies in_board(#[trigger] row_seq(i)[k]) && same_row(
        i,
        row_seq(i)[k],
    ) by {
        lemma_fundamental_div_mod_converse(9 * r + k, 9, r, k);
    }
    assert forall|j: int| in_board(j) && same_row(i, j) implies j == row_seq(i)[j % 9] by {
        lemma_fundamental_div_mod(j, 9);
    }
}

/// Column cells lie on the board, share the column of `i`, are pairwise
/// distinct, and every cell in that column occurs among them.
pub proof fn lemma_col_cells(i: int)
    requires
        in_board(i),
    ensures
        forall|k: int| 0 <= k < 9 ==> in_board(#[trigger] col_seq(i)[k]) && same_col(i, col_seq(i)[k]),
        forall|k1: int, k2: int|
            0 <= k1 < 9 && 0 <= k2 < 9 && k1 != k2 ==> #[trigger] col_seq(i)[k1]
                != #[trigger] col_seq(i)[k2],
        forall|j: int| in_board(j) && same_col(i, j) ==> j == col_seq(i)[j / 9],
{
    lemma_fundamental_div_mod(i, 9);
    let c = i % 9;
    assert forall|k: int| 0 <= k < 9 implies in_board(#[trigger] col_seq(i)[k]) && same_col(
        i,
        col_seq(i)[k],
    ) by {
        lemma_fundamental_div_mod_converse(c + 9 * k, 9, k, c);
    }
    assert forall|k1: int, k2: int|
        0 <= k1 < 9 && 0 <= k2 < 9 && k1 != k2 implies #[trigger] col_seq(i)[k1]
        != #[trigger] col_seq(i)[k2] by {
        lemma_fundamental_div_mod_converse(c + 9 * k1, 9, k1, c);
        lemma_fundamental_div_mod_converse(c + 9 * k2, 9, k2, c);
    }
    assert forall|j: int| in_board(j) && same_col(i, j) implies j == col_seq(i)[j / 9] by {
        lemma_fundamental_div_mod(j, 9);
    }
}

/// Block cells lie on the board, share the block of `i`, are pairwise
/// distinct, and every cell in that block occurs among them.
pub proof fn lemma_block_cells(i: int)
    requires
        in_board(i),
    ensures
        forall|k: int|
            0 <= k < 9 ==> in_board(#[trigger] block_seq(i)[k]) && same_block(i, block_seq(i)[k]),
        forall|k1: int, k2: int|
            0 <= k1 < 9 && 0 <= k2 < 9 && k1 != k2 ==> #[trigger] block_seq(i)[k1]
                != #[trigger] block_seq(i)[k2],
        forall|j: int|
            in_board(j) && same_block(i, j) ==> j == block_seq(i)[3 * ((j / 9) % 3) + (j % 9) % 3],
{
    lemma_fundamental_div_mod(i, 27);
    lemma_fundamental_div_mod(i, 9);
    lemma_fundamental_div_mod(i % 9, 3);
    let r2 = i / 27;
    let t = (i % 9) / 3;
    let b = 27 * r2 + 3 * t;
    assert(block_base(i) == b);
    assert(0 <= r2 < 3 && 0 <= t < 3);
    assert forall|k: int|
        0 <= k < 9 implies in_board(#[trigger] block_seq(i)[k]) && same_block(
        i,
        block_seq(i)[k],
    ) by {
        lemma_fundamental_div_mod(k, 3);
        let k3 = k / 3;
        let km = k % 3;
        let ck = b + km + 9 * k3;
        assert(block_seq(i)[k] == ck);
        lemma_fundamental_div_mod_converse(ck, 27, r2, 9 * k3 + 3 * t + km);
        lemma_fundamental_div_mod_converse(ck, 9, 3 * r2 + k3, 3 * t + km);
        lemma_fundamental_div_mod_converse(3 * t + km, 3, t, km);
    }
    assert forall|k1: int, k2: int|
        0 <= k1 < 9 && 0 <= k2 < 9 && k1 != k2 implies #[trigger] block_seq(i)[k1]
        != #[trigger] block_seq(i)[k2] by {
        lemma_fundamental_div_mod(k1, 3);
        lemma_fundamental_div_mod(k2, 3);
    }
    assert forall|j: int|
        in_board(j) && same_block(i, j) implies j == block_seq(i)[3 * ((j / 9) % 3) + (j % 9)
        % 3] by {
        lemma_fundamental_div_mod(j, 27);
        lemma_fundamental_div_mod(j, 9);
        lemma_fundamental_div_mod(j % 9, 3);
        lemma_fundamental_div_mod(j / 9, 3);
        let k3 = (j / 9) % 3;
        let km = (j % 9) % 3;
        let k = 3 * k3 + km;
        // j / 9 == 3 * r2 + k3, because (j / 9) / 3 == j / 27 == r2.
        assert(j / 9 == 3 * r2 + k3) by {
            vstd::arithmetic::div_mod::lemma_div_denominator(j, 9, 3);
        }
        assert(k % 3 == km && k / 3 == k3) by {
            lemma_fundamental_div_mod_converse(k, 3, k3, km);
        }
        assert(block_seq(i)[k] == b + km + 9 * k3);
        assert(j == 9 * (j / 9) + (j % 9));
        assert(j % 9 == 3 * t + km);
    }
}

/// Every group member is a peer of every other member, all nine lie on the
/// board, and no index repeats.
pub proof fn lemma_group_props(gi: int)
    requires
        0 <= gi < 27,
    ensures
        group_seq(gi).len() == 9,
        forall|k: int| 0 <= k < 9 ==> in_board(#[trigger] group_seq(gi)[k]),
        forall|k1: int, k2: int|
            0 <= k1 < 9 && 0 <= k2 < 9 && k1 != k2 ==> #[trigger] group_seq(gi)[k1]
                != #[trigger] group_seq(gi)[k2] && peers_rel(group_seq(gi)[k1], group_seq(gi)[k2]),
{
    if gi < 9 {
        lemma_row_cells(9 * gi);
    } else if gi < 18 {
        lemma_col_cells(gi - 9);
    } else {
        let f = gi - 18;
        lemma_fundamental_div_mod(f, 3);
        let a = (f / 3) * 27 + (f % 3) * 3;
        assert(block_base(a) == a && group_seq(gi) == block_seq(a)) by {
            lemma_fundamental_div_mod_converse(a, 27, f / 3, (f % 3) * 3);
            lemma_fundamental_div_mod_converse(a, 9, 3 * (f / 3), (f % 3) * 3);
            lemma_fundamental_div_mod_converse((f % 3) * 3, 3, f % 3, 0);
        }
        lemma_block_cells(a);
    }
}

/// The block group scanned as block number `f` (0..9, row-major over blocks)
/// is the block group of its anchor cell.
pub proof fn lemma_block_anchor(f: int)
    requires
        0 <= f < 9,
    ensures
        in_board((f / 3) * 27 + (f % 3) * 3),
        group_seq(18 + f) == block_seq((f / 3) * 27 + (f % 3) * 3),
{
    lemma_fundamental_div_mod(f, 3);
    let a = (f / 3) * 27 + (f % 3) * 3;
    assert(block_base(a) == a) by {
        lemma_fundamental_div_mod_converse(a, 27, f / 3, (f % 3) * 3);
        lemma_fundamental_div_mod_converse(a, 9, 3 * (f / 3), (f % 3) * 3);
        lemma_fundamental_div_mod_converse((f % 3) * 3, 3, f % 3, 0);
    }
}

/// The nine indices of the row of `i`, in increasing order.
pub fn row_indices(i: usize) -> (r: Vec<usize>)
    requires
        i < 81,
    ensures
        r@.len() == 9,
        forall|k: int| 0 <= k < 9 ==> (#[trigger] r@[k]) < 81 && r@[k] as int == row_seq(i as int)[k],
{
    proof {
        lemma_row_cells(i as int);
    }
    let base = (i / 9) * 9;
    let mut r: Vec<usize> = Vec::new();
    let mut k: usize = 0;
    while k < 9
        invariant
            k <= 9,
            i < 81,
            base == (i / 9) * 9,
            r@.len() == k,
            forall|t: int| 0 <= t < k ==> (#[trigger] r@[t]) < 81 && r@[t] as int == row_seq(i as int)[t],
        decreases 9 - k,
    {
        proof {
            lemma_row_cells(i as int);
        }
        r.push(base + k);
        k = k + 1;
    }
    r
}

/// The nine indices of the column of `i`, in increasing order.
pub fn col_indices(i: usize) -> (r: Vec<usize>)
    requires
        i < 81,
    ensures
        r@.len() == 9,
        forall|k: int| 0 <= k < 9 ==> (#[trigger] r@[k]) < 81 && r@[k] as int == col_seq(i as int)[k],
{
    proof {
        lemma_col_cells(i as int);
    }
    let base = i % 9;
    let mut r: Vec<usize> = Vec::new();
    let mut k: usize = 0;
    while k < 9
        invariant
            k <= 9,
            i < 81,
            base == i % 9,
            r@.len() == k,
            forall|t: int| 0 <= t < k ==> (#[trigger] r@[t]) < 81 && r@[t] as int == col_seq(i as int)[t],
        decreases 9 - k,
    {
        proof {
            lemma_col_cells(i as int);
        }
        r.push(base + 9 * k);
        k = k + 1;
    }
    r
}

/// The top-left index of the 3x3 block containing `i`.
pub fn block_start(i: usize) -> (r: usize)
    requires
        i < 81,
    ensures
        r as int == block_base(i as int),
        r < 81,
{
    proof {
        lemma_fundamental_div_mod(i as int, 27);
        lemma_fundamental_div_mod(i as int, 9);
        lemma_fundamental_div_mod(i as int % 9, 3);
    }
    (i / 27) * 27 + ((i % 9) / 3) * 3
}

/// The nine indices of the block whose top-left cell is `s`, row-major
/// within the block.
pub fn block_indices_from_start(s: usize) -> (r: Vec<usize>)
    requires
        s < 81,
    ensures
        r@.len() == 9,
        forall|k: int| 0 <= k < 9 ==> (#[trigger] r@[k]) as int == block_seq_from(s as int)[k],
{
    let mut r: Vec<usize> = Vec::new();
    let mut k: usize = 0;
    while k < 9
        invariant
            k <= 9,
            s < 81,
            r@.len() == k,
            forall|t: int| 0 <= t < k ==> (#[trigger] r@[t]) as int == block_seq_from(s as int)[t],
        decreases 9 - k,
    {
        r.push(s + k % 3 + 9 * (k / 3));
        k = k + 1;
    }
    r
}

/// The nine indices of the block of `i`, row-major within the block.
pub fn block_indices(i: usize) -> (r: Vec<usize>)
    requires
        i < 81,
    ensures
        r@.len() == 9,
        forall|k: int|
            0 <= k < 9 ==> (#[trigger] r@[k]) < 81 && r@[k] as int == block_seq(i as int)[k],
{
    proof {
        lemma_block_cells(i as int);
    }
    let s = block_start(i);
    let r = block_indices_from_start(s);
    proof {
        assert(forall|k: int| 0 <= k < 9 ==> #[trigger] block_seq(i as int)[k] == block_seq_from(
            s as int,
        )[k]);
        assert(forall|k: int|
            0 <= k < 9 ==> (#[trigger] r@[k]) as int == block_seq(i as int)[k] && in_board(
                block_seq(i as int)[k],
            ));
    }
    r
}

/// The 27 peer indices of `i`: its row, then its column, then its block.
/// `i` itself and the overlaps appear multiple times.
pub fn peer_indices(i: usize) -> (r: Vec<usize>)
    requires
        i < 81,
    ensures
        r@.len() == 27,
        forall|t: int|
            0 <= t < 27 ==> (#[trigger] r@[t]) < 81 && peers_rel(i as int, r@[t] as int),
        forall|t: int| 0 <= t < 9 ==> (#[trigger] r@[t]) as int == row_seq(i as int)[t],
        forall|t: int| 9 <= t < 18 ==> (#[trigger] r@[t]) as int == col_seq(i as int)[t - 9],
        forall|t: int| 18 <= t < 27 ==> (#[trigger] r@[t]) as int == block_seq(i as int)[t - 18],
        forall|j: int|
            in_board(j) && peers_rel(i as int, j) ==> exists|t: int|
                0 <= t < 27 && (#[trigger] r@[t]) as int == j,
{
    proof {
        lemma_row_cells(i as int);
        lemma_col_cells(i as int);
        lemma_block_cells(i as int);
    }
    let mut r = row_indices(i);
    let c = col_indices(i);
    let b = block_indices(i);
    let mut k: usize = 0;
    while k < 9
        invariant
            k <= 9,
            i < 81,
            r@.len() == 9 + k,
            c@.len() == 9,
            forall|t: int|
                0 <= t < 9 ==> (#[trigger] r@[t]) < 81 && r@[t] as int == row_seq(i as int)[t],
            forall|t: int|
                0 <= t < 9 ==> (#[trigger] c@[t]) < 81 && c@[t] as int == col_seq(i as int)[t],
            forall|t: int| 9 <= t < 9 + k ==> (#[trigger] r@[t]) == c@[t - 9],
        decreases 9 - k,
    {
        r.push(c[k]);
        k = k + 1;
    }
    let mut k: usize = 0;
    while k < 9
        invariant
            k <= 9,
            i < 81,
            r@.len() == 18 + k,
            b@.len() == 9,
            forall|t: int|
                0 <= t < 9 ==> (#[trigger] r@[t]) < 81 && r@[t] as int == row_seq(i as int)[t],
            forall|t: int|
                9 <= t < 18 ==> (#[trigger] r@[t]) < 81 && r@[t] as int == col_seq(i as int)[t - 9],
            forall|t: int|
                0 <= t < 9 ==> (#[trigger] b@[t]) < 81 && b@[t] as int == block_seq(i as int)[t],
            forall|t: int| 18 <= t < 18 + k ==> (#[trigger] r@[t]) == b@[t - 18],
        decreases 9 - k,
    {
        r.push(b[k]);
        k = k + 1;
    }
    proof {
        assert forall|j: int| in_board(j) && peers_rel(i as int, j) implies exists|t: int|
            0 <= t < 27 && (#[trigger] r@[t]) as int == j by {
            if same_row(i as int, j) {
                assert(r@[j % 9] as int == j);
            } else if same_col(i as int, j) {
                assert(r@[9 + j / 9] as int == j);
            } else {
                assert(r@[18 + 3 * ((j / 9) % 3) + (j % 9) % 3] as int == j);
            }
        }
    }
    r
}

/// The nine indices of peer group `gi`: rows 0..9, then columns 9..18, then
/// blocks 18..27.
pub fn group_indices(gi: usize) -> (r: Vec<usize>)
    requires
        gi < 27,
    ensures
        r@.len() == 9,
        forall|k: int|
            0 <= k < 9 ==> (#[trigger] r@[k]) < 81 && r@[k] as int == group_seq(gi as int)[k],
{
    proof {
        lemma_group_props(gi as int);
    }
    if gi < 9 {
        let r = row_indices(9 * gi);
        proof {
            assert(row_seq(9 * gi as int) == group_seq(gi as int));
        }
        r
    } else if gi < 18 {
        let r = col_indices(gi - 9);
        proof {
            assert(col_seq(gi as int - 9) == group_seq(gi as int));
        }
        r
    } else {
        let f = gi - 18;
        proof {
            lemma_fundamental_div_mod(f as int, 3);
        }
        let r = block_indices_from_start((f / 3) * 27 + (f % 3) * 3);
        r
    }
}

/// Cells of one block group share a block pairwise, and every board cell
/// sharing a block with one of them lies in the group.
pub proof fn lemma_block_group_same_block(f: int)
    requires
        0 <= f < 9,
    ensures
        forall|k1: int, k2: int|
            0 <= k1 < 9 && 0 <= k2 < 9 ==> same_block(
                #[trigger] group_seq(18 + f)[k1],
                #[trigger] group_seq(18 + f)[k2],
            ),
        forall|j: int, k: int|
            in_board(j) && 0 <= k < 9 && #[trigger] same_block(group_seq(18 + f)[k], j)
                ==> exists|k2: int| 0 <= k2 < 9 && (#[trigger] group_seq(18 + f)[k2]) == j,
{
    lemma_block_anchor(f);
    let a = (f / 3) * 27 + (f % 3) * 3;
    lemma_block_cells(a);
    assert forall|j: int, k: int|
        in_board(j) && 0 <= k < 9 && #[trigger] same_block(group_seq(18 + f)[k], j) implies exists|
        k2: int,
    |
        0 <= k2 < 9 && (#[trigger] group_seq(18 + f)[k2]) == j by {
        assert(same_block(a, group_seq(18 + f)[k]));
        assert(same_block(a, j));
        assert(group_seq(18 + f)[3 * ((j / 9) % 3) + (j % 9) % 3] == j);
    }
}

/// Geometry law: every one of the three peer groups of a cell contains the
/// cell itself.
pub proof fn lemma_groups_contain_self(i: int)
    requires
        in_board(i),
    ensures
        row_seq(i).contains(i),
        col_seq(i).contains(i),
        block_seq(i).contains(i),
{
    lemma_row_cells(i);
    lemma_col_cells(i);
    lemma_block_cells(i);
    lemma_fundamental_div_mod(i, 9);
    lemma_fundamental_div_mod(i, 27);
    lemma_fundamental_div_mod(i % 9, 3);
    lemma_fundamental_div_mod(i / 9, 3);
    assert(row_seq(i)[i % 9] == i);
    assert(col_seq(i)[i / 9] == i);
    assert(block_seq(i)[3 * ((i / 9) % 3) + (i % 9) % 3] == i);
}

/// Geometry law: the row and the column of a cell meet exactly at the cell.
pub proof fn lemma_row_col_overlap(i: int)
    requires
        in_board(i),
    ensures
        forall|x: int| (row_seq(i).contains(x) && col_seq(i).contains(x)) <==> x == i,
{
    lemma_row_cells(i);
    lemma_col_cells(i);
    lemma_groups_contain_self(i);
    assert forall|x: int| row_seq(i).contains(x) && col_seq(i).contains(x) implies x == i by {
        let k1 = choose|k: int| 0 <= k < 9 && row_seq(i)[k] == x;
        let k2 = choose|k: int| 0 <= k < 9 && col_seq(i)[k] == x;
        assert(same_row(i, x) && same_col(i, x));
        lemma_fundamental_div_mod(i, 9);
        lemma_fundamental_div_mod(x, 9);
    }
}

/// Geometry law: the row and the block of a cell meet exactly in the three
/// consecutive cells of the block row through the cell.
pub proof fn lemma_row_block_overlap(i: int)
    requires
        in_board(i),
    ensures
        forall|x: int|
            (row_seq(i).contains(x) && block_seq(i).contains(x)) <==> ((i / 9) * 9 + ((i % 9) / 3)
                * 3 <= x < (i / 9) * 9 + ((i % 9) / 3) * 3 + 3),
{
    lemma_row_cells(i);
    lemma_block_cells(i);
    lemma_fundamental_div_mod(i, 9);
    lemma_fundamental_div_mod(i, 27);
    lemma_fundamental_div_mod(i % 9, 3);
    let r = i / 9;
    let t = (i % 9) / 3;
    let lo = 9 * r + 3 * t;
    assert forall|x: int|
        row_seq(i).contains(x) && block_seq(i).contains(x) implies lo <= x < lo + 3 by {
        let k1 = choose|k: int| 0 <= k < 9 && row_seq(i)[k] == x;
        assert(x == 9 * r + k1);
        lemma_fundamental_div_mod_converse(x, 9, r, k1);
        let k2 = choose|k: int| 0 <= k < 9 && block_seq(i)[k] == x;
        assert(same_block(i, x));
        lemma_fundamental_div_mod(x % 9, 3);
        assert(x % 9 == k1);
        assert(k1 / 3 == t);
        assert(k1 == 3 * t + k1 % 3);
    }
    assert forall|x: int| lo <= x < lo + 3 implies row_seq(i).contains(x) && block_seq(i).contains(
        x,
    ) by {
        let d = x - lo;
        assert(x == 9 * r + (3 * t + d));
        lemma_fundamental_div_mod_converse(x, 9, r, 3 * t + d);
        assert(same_row(i, x) && in_board(x));
        assert(x == 27 * (i / 27) + (9 * (r - 3 * (i / 27)) + 3 * t + d)) by {
            vstd::arithmetic::div_mod::lemma_div_denominator(i, 9, 3);
            lemma_fundamental_div_mod(r, 3);
        }
        assert(x / 27 == i / 27) by {
            vstd::arithmetic::div_mod::lemma_div_denominator(i, 9, 3);
            lemma_fundamental_div_mod(r, 3);
            lemma_fundamental_div_mod_converse(
                x,
                27,
                i / 27,
                9 * (r - 3 * (i / 27)) + 3 * t + d,
            );
        }
        lemma_fundamental_div_mod_converse(3 * t + d, 3, t, d);
        assert(same_block(i, x));
        assert(row_seq(i)[x % 9] == x);
        assert(block_seq(i)[3 * ((x / 9) % 3) + (x % 9) % 3] == x);
    }
}

/// Geometry law: the column and the block of a cell meet exactly in three
/// cells, one in each row of the block.
pub proof fn lemma_col_block_overlap(i: int)
    requires
        in_board(i),
    ensures
        forall|x: int|
            (col_seq(i).contains(x) && block_seq(i).contains(x)) <==> (x == (i / 27) * 27 + i % 9
                || x == (i / 27) * 27 + i % 9 + 9 || x == (i / 27) * 27 + i % 9 + 18),
{
    lemma_col_cells(i);
    lemma_block_cells(i);
    lemma_fundamental_div_mod(i, 9);
    lemma_fundamental_div_mod(i, 27);
    lemma_fundamental_div_mod(i % 9, 3);
    let r2 = i / 27;
    let c = i % 9;
    assert forall|x: int|
        col_seq(i).contains(x) && block_seq(i).contains(x) implies (x == 27 * r2 + c || x == 27
        * r2 + c + 9 || x == 27 * r2 + c + 18) by {
        let k1 = choose|k: int| 0 <= k < 9 && col_seq(i)[k] == x;
        assert(x == c + 9 * k1);
        lemma_fundamental_div_mod_converse(x, 9, k1, c);
        let k2 = choose|k: int| 0 <= k < 9 && block_seq(i)[k] == x;
        assert(same_block(i, x));
        // x == 27 * (x / 27) + 9 * ((x / 9) % 3) + x % 9
        vstd::arithmetic::div_mod::lemma_div_denominator(x, 9, 3);
        lemma_fundamental_div_mod(x / 9, 3);
        assert(x == 9 * (x / 9) + x % 9);
        assert(x / 9 == 3 * (x / 27) + (x / 9) % 3);
        assert(0 <= (x / 9) % 3 < 3);
    }
    assert forall|x: int|
        (x == 27 * r2 + c || x == 27 * r2 + c + 9 || x == 27 * r2 + c + 18) implies col_seq(
        i,
    ).contains(x) && block_seq(i).contains(x) by {
        let u = (x - (27 * r2 + c)) / 9;
        assert(x == 27 * r2 + c + 9 * ((x - (27 * r2 + c)) / 9)) by {
            if x == 27 * r2 + c {
                lemma_fundamental_div_mod_converse(0, 9, 0, 0);
            } else if x == 27 * r2 + c + 9 {
                lemma_fundamental_div_mod_converse(9, 9, 1, 0);
            } else {
                lemma_fundamental_div_mod_converse(18, 9, 2, 0);
            }
        }
        assert(x == c + 9 * (3 * r2 + u));
        lemma_fundamental_div_mod_converse(x, 9, 3 * r2 + u, c);
        assert(same_col(i, x) && in_board(x));
        assert(x == 27 * r2 + (9 * u + c));
        lemma_fundamental_div_mod_converse(x, 27, r2, 9 * u + c);
        lemma_fundamental_div_mod(x / 9, 3);
        assert(x % 9 == c);
        assert(same_block(i, x));
        assert(col_seq(i)[x / 9] == x);
        assert(block_seq(i)[3 * ((x / 9) % 3) + (x % 9) % 3] == x);
    }
}

} // verus!

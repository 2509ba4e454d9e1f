//! The cell type and the mathematical model of a board: well-formedness,
//! monotone refinement, admitted solutions, and the measure that every
//! deduction pass decreases.

use vstd::prelude::*;
use crate::digits::DigitSet;
use crate::digits::all_digits;
use crate::digits::lemma_all_digits_len;
use crate::digits::lemma_digit_set_bounds;
use crate::digits::lemma_subset_same_len;
use crate::geometry::group_seq;
use crate::geometry::in_board;
use crate::geometry::lemma_group_props;
use crate::geometry::peers_rel;
use crate::geometry::same_block;
use vstd::set_lib::lemma_len_subset;

verus! {

/// One cell of the board: a fixed digit, or the set of digits still
/// consistent with it.
#[derive(Clone, Copy, PartialEq, Eq, Structural)]
pub enum Cell {
    Value(u8),
    Possibilities(DigitSet),
}

/// The cell holds a fixed digit.
pub open spec fn is_fixed(c: Cell) -> bool {
    match c {
        Cell::Value(_) => true,
        Cell::Possibilities(_) => false,
    }
}

/// The cell is still undetermined.
pub open spec fn is_open(c: Cell) -> bool {
    !is_fixed(c)
}

/// The digit of a fixed cell.
pub open spec fn fixed_digit(c: Cell) -> int {
    match c {
        Cell::Value(d) => d as int,
        Cell::Possibilities(_) => 0,
    }
}

/// The candidate set of an open cell.
pub open spec fn open_set(c: Cell) -> Set<int> {
    match c {
        Cell::Value(_) => Set::empty(),
        Cell::Possibilities(s) => s@,
    }
}

/// A well-formed cell: a digit 1..=9, or a well-formed candidate set.
pub open spec fn cell_wf(c: Cell) -> bool {
    match c {
        Cell::Value(d) => 1 <= d <= 9,
        Cell::Possibilities(s) => s.wf(),
    }
}

/// A well-formed board: 81 well-formed cells.
pub open spec fn board_wf(b: Seq<Cell>) -> bool {
    b.len() == 81 && forall|i: int| 0 <= i < 81 ==> cell_wf(#[trigger] b[i])
}

/// Monotone step on one cell: a fixed cell keeps its digit; an open cell
/// either keeps a subset of its candidates or collapses to one of them.
pub open spec fn cell_refines(c2: Cell, c1: Cell) -> bool {
    match c1 {
        Cell::Value(_) => c2 == c1,
        Cell::Possibilities(s1) => match c2 {
            Cell::Value(d2) => s1@.contains(d2 as int),
            Cell::Possibilities(s2) => s2@.subset_of(s1@),
        },
    }
}

/// Monotone step on the whole board.
pub open spec fn refines(b2: Seq<Cell>, b1: Seq<Cell>) -> bool {
    b2.len() == 81 && b1.len() == 81 && forall|i: int|
        0 <= i < 81 ==> cell_refines(#[trigger] b2[i], #[trigger] b1[i])
}

/// Refinement is reflexive.
pub proof fn lemma_refines_refl(b: Seq<Cell>)
    requires
        b.len() == 81,
    ensures
        refines(b, b),
{
}

/// Refinement is transitive.
pub proof fn lemma_refines_trans(b3: Seq<Cell>, b2: Seq<Cell>, b1: Seq<Cell>)
    requires
        refines(b3, b2),
        refines(b2, b1),
    ensures
        refines(b3, b1),
{
    assert forall|i: int| 0 <= i < 81 implies cell_refines(#[trigger] b3[i], #[trigger] b1[i]) by {
        assert(cell_refines(b3[i], b2[i]));
        assert(cell_refines(b2[i], b1[i]));
    }
}

/// Overwriting one cell with a refinement of it refines the whole board.
pub proof fn lemma_refines_update(b: Seq<Cell>, j: int, c: Cell)
    requires
        b.len() == 81,
        0 <= j < 81,
        cell_refines(c, b[j]),
    ensures
        refines(b.update(j, c), b),
{
    let b2 = b.update(j, c);
    assert forall|i: int| 0 <= i < 81 implies cell_refines(#[trigger] b2[i], #[trigger] b[i]) by {
        if i != j {
            assert(b2[i] == b[i]);
            lemma_cell_refines_refl(b[i]);
        }
    }
}

proof fn lemma_cell_refines_refl(c: Cell)
    ensures
        cell_refines(c, c),
{
    match c {
        Cell::Value(_) => {},
        Cell::Possibilities(_) => {},
    }
}

/// A complete assignment of digits to the 81 cells that satisfies the
/// Sudoku constraint: distinct digits on any two distinct peer cells.
pub open spec fn valid_solution(s: Seq<int>) -> bool {
    &&& s.len() == 81
    &&& forall|i: int| 0 <= i < 81 ==> 1 <= #[trigger] s[i] <= 9
    &&& forall|i: int, j: int|
        0 <= i < 81 && 0 <= j < 81 && i != j && peers_rel(i, j) ==> #[trigger] s[i] != #[trigger] s[j]
}

/// The cell is consistent with digit `d` standing there.
pub open spec fn cell_admits(c: Cell, d: int) -> bool {
    match c {
        Cell::Value(v) => d == v as int,
        Cell::Possibilities(s) => s@.contains(d),
    }
}

/// The board admits the solution: every fixed cell agrees with it and every
/// open cell still lists its digit.
pub open spec fn admits(b: Seq<Cell>, s: Seq<int>) -> bool {
    &&& b.len() == 81
    &&& valid_solution(s)
    &&& forall|i: int| 0 <= i < 81 ==> cell_admits(#[trigger] b[i], s[i])
}

/// Soundness of a deduction step: every solution admitted before is still
/// admitted after.
pub open spec fn sound_step(b1: Seq<Cell>, b2: Seq<Cell>) -> bool {
    forall|s: Seq<int>| admits(b1, s) ==> admits(b2, s)
}

/// No open cell still lists the digit of a fixed peer.
pub open spec fn eliminated(b: Seq<Cell>) -> bool {
    forall|i: int, j: int|
        0 <= i < 81 && 0 <= j < 81 && i != j && peers_rel(i, j) && is_fixed(#[trigger] b[i])
            && is_open(#[trigger] b[j]) ==> !open_set(b[j]).contains(fixed_digit(b[i]))
}

/// No open cell with a single candidate has a fixed peer; elimination would
/// collapse such a cell at once.
pub open spec fn no_ready_single(b: Seq<Cell>) -> bool {
    forall|i: int, j: int|
        0 <= i < 81 && 0 <= j < 81 && i != j && peers_rel(i, j) && is_fixed(#[trigger] b[i])
            && is_open(#[trigger] b[j]) ==> open_set(b[j]).len() != 1
}

/// Fixed point of elimination by fixed values.
pub open spec fn elimination_stuck(b: Seq<Cell>) -> bool {
    eliminated(b) && no_ready_single(b)
}

/// No open cell still lists the digit of a fixed cell in its block.
pub open spec fn block_eliminated(b: Seq<Cell>) -> bool {
    forall|i: int, j: int|
        0 <= i < 81 && 0 <= j < 81 && i != j && same_block(i, j) && is_fixed(#[trigger] b[i])
            && is_open(#[trigger] b[j]) ==> !open_set(b[j]).contains(fixed_digit(b[i]))
}

/// Full elimination covers elimination within blocks.
pub proof fn lemma_eliminated_blocks(b: Seq<Cell>)
    requires
        eliminated(b),
    ensures
        block_eliminated(b),
{
}

/// What a pass can still remove: the candidate count of an open cell.
pub open spec fn cell_weight(c: Cell) -> nat {
    match c {
        Cell::Value(_) => 0,
        Cell::Possibilities(s) => s@.len(),
    }
}

/// Total candidate count of the first `n` cells.
pub open spec fn weight_prefix(b: Seq<Cell>, n: int) -> nat
    decreases n,
{
    if n <= 0 {
        0
    } else {
        weight_prefix(b, n - 1) + cell_weight(b[n - 1])
    }
}

/// Total candidate count of the board; every productive pass decreases it.
pub open spec fn weight(b: Seq<Cell>) -> nat {
    weight_prefix(b, 81)
}

proof fn lemma_weight_prefix_le(b1: Seq<Cell>, b2: Seq<Cell>, n: int)
    requires
        forall|i: int| 0 <= i < n ==> cell_weight(#[trigger] b2[i]) <= cell_weight(#[trigger] b1[i]),
    ensures
        weight_prefix(b2, n) <= weight_prefix(b1, n),
    decreases n,
{
    if n > 0 {
        lemma_weight_prefix_le(b1, b2, n - 1);
    }
}

proof fn lemma_weight_prefix_lt(b1: Seq<Cell>, b2: Seq<Cell>, n: int, j: int)
    requires
        forall|i: int| 0 <= i < n ==> cell_weight(#[trigger] b2[i]) <= cell_weight(#[trigger] b1[i]),
        0 <= j < n,
        cell_weight(b2[j]) < cell_weight(b1[j]),
    ensures
        weight_prefix(b2, n) < weight_prefix(b1, n),
    decreases n,
{
    if j == n - 1 {
        lemma_weight_prefix_le(b1, b2, n - 1);
    } else {
        lemma_weight_prefix_lt(b1, b2, n - 1, j);
    }
}

/// A monotone step never increases the measure.
pub proof fn lemma_refines_weight(b1: Seq<Cell>, b2: Seq<Cell>)
    requires
        board_wf(b1),
        refines(b2, b1),
    ensures
        weight(b2) <= weight(b1),
{
    assert forall|i: int| 0 <= i < 81 implies cell_weight(#[trigger] b2[i]) <= cell_weight(
        #[trigger] b1[i],
    ) by {
        lemma_cell_weight_le(b1[i], b2[i]);
    }
    lemma_weight_prefix_le(b1, b2, 81);
}

/// A monotone step that visibly changes one cell strictly decreases the
/// measure.
pub proof fn lemma_refines_weight_lt(b1: Seq<Cell>, b2: Seq<Cell>, j: int)
    requires
        board_wf(b1),
        refines(b2, b1),
        0 <= j < 81,
        is_open(b1[j]),
        is_fixed(b2[j]) || open_set(b2[j]).len() < open_set(b1[j]).len(),
    ensures
        weight(b2) < weight(b1),
{
    assert forall|i: int| 0 <= i < 81 implies cell_weight(#[trigger] b2[i]) <= cell_weight(
        #[trigger] b1[i],
    ) by {
        lemma_cell_weight_le(b1[i], b2[i]);
    }
    assert(cell_weight(b2[j]) < cell_weight(b1[j])) by {
        lemma_cell_weight_le(b1[j], b2[j]);
        if is_fixed(b2[j]) {
            match b1[j] {
                Cell::Possibilities(s1) => {
                    lemma_digit_set_bounds(s1);
                    assert(s1@.contains(fixed_digit(b2[j])));
                    if s1@.len() == 0 {
                        s1@.lemma_len0_is_empty();
                    }
                },
                Cell::Value(_) => {},
            }
        }
    }
    lemma_weight_prefix_lt(b1, b2, 81, j);
}

proof fn lemma_cell_weight_le(c1: Cell, c2: Cell)
    requires
        cell_wf(c1),
        cell_refines(c2, c1),
    ensures
        cell_weight(c2) <= cell_weight(c1),
{
    match c1 {
        Cell::Value(_) => {},
        Cell::Possibilities(s1) => {
            lemma_digit_set_bounds(s1);
            match c2 {
                Cell::Value(_) => {},
                Cell::Possibilities(s2) => {
                    lemma_len_subset(s2@, s1@);
                },
            }
        },
    }
}

/// The digits a solution writes into a family of distinct, pairwise-peer
/// cells are pairwise distinct; their image has one digit per cell.
pub proof fn lemma_solution_image(s: Seq<int>, idxs: Seq<int>) -> (t: Set<int>)
    requires
        valid_solution(s),
        forall|a: int| 0 <= a < idxs.len() ==> in_board(#[trigger] idxs[a]),
        forall|a: int, b: int|
            0 <= a < idxs.len() && 0 <= b < idxs.len() && a != b ==> #[trigger] idxs[a]
                != #[trigger] idxs[b] && peers_rel(idxs[a], idxs[b]),
    ensures
        t.finite(),
        t.len() == idxs.len(),
        forall|d: int|
            t.contains(d) <==> exists|a: int| 0 <= a < idxs.len() && d == s[#[trigger] idxs[a]],
    decreases idxs.len(),
{
    if idxs.len() == 0 {
        let t = Set::<int>::empty();
        assert(forall|d: int|
            t.contains(d) <==> exists|a: int| 0 <= a < idxs.len() && d == s[#[trigger] idxs[a]]);
        t
    } else {
        let front = idxs.drop_last();
        let t0 = lemma_solution_image(s, front);
        let last = idxs[idxs.len() - 1];
        let d = s[last];
        assert(!t0.contains(d)) by {
            if t0.contains(d) {
                let a = choose|a: int| 0 <= a < front.len() && d == s[#[trigger] front[a]];
                assert(idxs[a] != last && peers_rel(idxs[a], last));
            }
        }
        let t = t0.insert(d);
        assert forall|e: int| t.contains(e) implies exists|a: int|
            0 <= a < idxs.len() && e == s[#[trigger] idxs[a]] by {
            if e == d {
                assert(idxs[idxs.len() - 1] == last);
            } else {
                let a = choose|a: int| 0 <= a < front.len() && e == s[#[trigger] front[a]];
                assert(idxs[a] == front[a]);
            }
        }
        assert forall|a: int| 0 <= a < idxs.len() implies t.contains(s[#[trigger] idxs[a]]) by {
            if a < idxs.len() - 1 {
                assert(front[a] == idxs[a]);
                assert(t0.contains(s[front[a]]));
            }
        }
        t
    }
}

/// In every valid solution, a full peer group carries all nine digits.
pub proof fn lemma_group_covers_digits(s: Seq<int>, gi: int)
    requires
        valid_solution(s),
        0 <= gi < 27,
    ensures
        forall|d: int|
            #[trigger] all_digits().contains(d) ==> exists|k: int|
                0 <= k < 9 && d == s[group_seq(gi)[k]],
{
    lemma_group_props(gi);
    let g = group_seq(gi);
    let t = lemma_solution_image(s, g);
    assert(t.subset_of(all_digits()));
    lemma_all_digits_len();
    lemma_subset_same_len(t, all_digits());
    assert forall|d: int| #[trigger] all_digits().contains(d) implies exists|k: int|
        0 <= k < 9 && d == s[group_seq(gi)[k]] by {
        assert(t.contains(d));
        let a = choose|a: int| 0 <= a < g.len() && d == s[#[trigger] g[a]];
        assert(0 <= a < 9 && d == s[group_seq(gi)[a]]);
    }
}

/// Union of the candidates of the open cells of block group `g` other than
/// the one at group position `p`, looking only at positions below `q`.
pub open spec fn others_union_upto(b: Seq<Cell>, g: Seq<int>, p: int, q: int) -> Set<int> {
    Set::new(
        |d: int|
            exists|q2: int|
                0 <= q2 < q && q2 != p && is_open(b[#[trigger] g[q2]]) && open_set(
                    b[g[q2]],
                ).contains(d),
    )
}

/// Union of the candidates of the other open cells of block group `g`.
pub open spec fn others_union(b: Seq<Cell>, g: Seq<int>, p: int) -> Set<int> {
    others_union_upto(b, g, p, 9)
}

/// Position `p` of block `f` holds an open cell with exactly one candidate
/// that no other open cell of the block still lists: a hidden single.
pub open spec fn hidden_trigger(b: Seq<Cell>, f: int, p: int) -> bool {
    let g = group_seq(18 + f);
    is_open(b[g[p]]) && open_set(b[g[p]]).difference(others_union(b, g, p)).len() == 1
}

/// Fixed point of the hidden-single rule: no block holds a hidden single.
pub open spec fn hidden_stuck(b: Seq<Cell>) -> bool {
    forall|f: int, p: int| 0 <= f < 9 && 0 <= p < 9 ==> !(#[trigger] hidden_trigger(b, f, p))
}

/// On a block-eliminated board, a digit unique to one open cell of a block
/// stands there in every admitted solution: some cell of the block must
/// carry it, and every other cell is ruled out.
pub proof fn lemma_hidden_sound(b: Seq<Cell>, s: Seq<int>, f: int, p: int, d: int)
    requires
        board_wf(b),
        admits(b, s),
        block_eliminated(b),
        0 <= f < 9,
        0 <= p < 9,
        is_open(b[group_seq(18 + f)[p]]),
        open_set(b[group_seq(18 + f)[p]]).difference(
            others_union(b, group_seq(18 + f), p),
        ).contains(d),
    ensures
        s[group_seq(18 + f)[p]] == d,
{
    let g = group_seq(18 + f);
    lemma_group_props(18 + f);
    crate::geometry::lemma_block_group_same_block(f);
    assert(cell_wf(b[g[p]]));
    match b[g[p]] {
        Cell::Possibilities(ds) => {
            lemma_digit_set_bounds(ds);
        },
        Cell::Value(_) => {},
    }
    assert(all_digits().contains(d));
    lemma_group_covers_digits(s, 18 + f);
    let k = choose|k: int| 0 <= k < 9 && d == s[#[trigger] group_seq(18 + f)[k]];
    if k != p {
        assert(cell_admits(b[g[k]], s[g[k]]));
        if is_open(b[g[k]]) {
            assert(open_set(b[g[k]]).contains(d));
            assert(others_union(b, g, p).contains(d));
        } else {
            assert(fixed_digit(b[g[k]]) == d);
            assert(same_block(g[k], g[p]) && g[k] != g[p]);
            assert(!open_set(b[g[p]]).contains(d));
        }
        assert(false);
    }
}

/// If a family of distinct peer cells confines its candidates to exactly as
/// many digits as there are cells, no peer of all of them takes one of those
/// digits in any admitted solution.
pub proof fn lemma_confined_digits(
    b: Seq<Cell>,
    s: Seq<int>,
    idxs: Seq<int>,
    u: Set<int>,
    j: int,
)
    requires
        admits(b, s),
        u.finite(),
        u.len() == idxs.len(),
        forall|a: int|
            0 <= a < idxs.len() ==> in_board(#[trigger] idxs[a]) && is_open(b[idxs[a]]) && open_set(
                b[idxs[a]],
            ).subset_of(u),
        forall|a: int, c: int|
            0 <= a < idxs.len() && 0 <= c < idxs.len() && a != c ==> #[trigger] idxs[a]
                != #[trigger] idxs[c] && peers_rel(idxs[a], idxs[c]),
        in_board(j),
        forall|a: int| 0 <= a < idxs.len() ==> #[trigger] idxs[a] != j && peers_rel(j, idxs[a]),
    ensures
        !u.contains(s[j]),
{
    let t = lemma_solution_image(s, idxs);
    assert forall|d: int| t.contains(d) implies u.contains(d) by {
        let a = choose|a: int| 0 <= a < idxs.len() && d == s[#[trigger] idxs[a]];
        assert(cell_admits(b[idxs[a]], s[idxs[a]]));
        assert(open_set(b[idxs[a]]).contains(d));
    }
    lemma_subset_same_len(t, u);
    if u.contains(s[j]) {
        let a = choose|a: int| 0 <= a < idxs.len() && s[j] == s[#[trigger] idxs[a]];
        assert(idxs[a] != j && peers_rel(j, idxs[a]));
    }
}

/// Powers of two, for reading a selection mask digit by digit.
pub open spec fn pow2(k: int) -> int
    decreases k,
{
    if k <= 0 {
        1int
    } else {
        2 * pow2(k - 1)
    }
}

/// Bit `k` of the selection mask `m`: group position `k` is selected.
pub open spec fn pos_bit(m: int, k: int) -> bool {
    (m / pow2(k)) % 2 == 1
}

/// How many of the group positions below `upto` the mask selects.
pub open spec fn msk_card(m: int, upto: int) -> int
    decreases upto,
{
    if upto <= 0 {
        0int
    } else {
        msk_card(m, upto - 1) + if pos_bit(m, upto - 1) {
            1int
        } else {
            0int
        }
    }
}

/// Every selected cell of group `gi` is open.
pub open spec fn msk_open(b: Seq<Cell>, gi: int, m: int) -> bool {
    forall|k: int| 0 <= k < 9 && pos_bit(m, k) ==> is_open(b[#[trigger] group_seq(gi)[k]])
}

/// Union of the candidate sets of the cells that the mask selects among
/// the first `upto` positions of group `gi`.
pub open spec fn msk_union_upto(b: Seq<Cell>, gi: int, m: int, upto: int) -> Set<int> {
    Set::new(
        |d: int|
            exists|k: int|
                0 <= k < upto && pos_bit(m, k) && #[trigger] open_set(
                    b[group_seq(gi)[k]],
                ).contains(d),
    )
}

/// Union of the candidate sets of the selected cells of group `gi`.
pub open spec fn msk_union(b: Seq<Cell>, gi: int, m: int) -> Set<int> {
    msk_union_upto(b, gi, m, 9)
}

/// The mask picks a naked subset of group `gi`: two to four open cells
/// whose candidates together span exactly as many digits as there are
/// cells.
pub open spec fn msk_naked(b: Seq<Cell>, gi: int, m: int) -> bool {
    &&& 0 <= gi < 27
    &&& 0 <= m < 512
    &&& 2 <= msk_card(m, 9) <= 4
    &&& msk_open(b, gi, m)
    &&& msk_union(b, gi, m).len() == msk_card(m, 9)
}

/// Applying the naked subset to the rest of its group removes nothing.
pub open spec fn msk_removal_empty(b: Seq<Cell>, gi: int, m: int) -> bool {
    forall|k: int|
        0 <= k < 9 && !pos_bit(m, k) && is_open(b[#[trigger] group_seq(gi)[k]]) ==> open_set(
            b[group_seq(gi)[k]],
        ).disjoint(msk_union(b, gi, m))
}

/// Fixed point of the naked-subset rule: no naked subset of any group can
/// remove a candidate anywhere.
pub open spec fn naked_noop(b: Seq<Cell>) -> bool {
    forall|gi: int, m: int| #[trigger] msk_naked(b, gi, m) ==> msk_removal_empty(b, gi, m)
}

pub proof fn lemma_pow2_pos(k: int)
    ensures
        pow2(k) >= 1,
    decreases k,
{
    if k > 0 {
        lemma_pow2_pos(k - 1);
    }
}

/// `x` is one of the cells that mask `m` selects among the first `upto`
/// positions of group `gi`.
pub open spec fn sel_from(gi: int, m: int, upto: int, x: int) -> bool {
    exists|k: int| 0 <= k < upto && pos_bit(m, k) && x == #[trigger] group_seq(gi)[k]
}

proof fn lemma_sel_from_widen(gi: int, m: int, u1: int, u2: int, x: int)
    requires
        sel_from(gi, m, u1, x),
        u1 <= u2,
    ensures
        sel_from(gi, m, u2, x),
{
    let k = choose|k: int| 0 <= k < u1 && pos_bit(m, k) && x == #[trigger] group_seq(gi)[k];
    assert(0 <= k < u2 && pos_bit(m, k) && x == group_seq(gi)[k]);
}

/// The selected cells of a naked subset, as a sequence of board indices:
/// distinct open pairwise-peer cells whose candidates stay inside the
/// selection union, one for each selected position below `upto`.
pub proof fn lemma_msk_sel_prefix(b: Seq<Cell>, gi: int, m: int, upto: int) -> (sel: Seq<int>)
    requires
        b.len() == 81,
        0 <= gi < 27,
        msk_open(b, gi, m),
        0 <= upto <= 9,
    ensures
        sel.len() == msk_card(m, upto),
        forall|a: int| 0 <= a < sel.len() ==> sel_from(gi, m, upto, #[trigger] sel[a]),
        forall|k: int|
            0 <= k < upto && pos_bit(m, k) ==> sel.contains(#[trigger] group_seq(gi)[k]),
        forall|a: int|
            0 <= a < sel.len() ==> in_board(#[trigger] sel[a]) && is_open(b[sel[a]]) && open_set(
                b[sel[a]],
            ).subset_of(msk_union(b, gi, m)),
        forall|a: int, c: int|
            0 <= a < sel.len() && 0 <= c < sel.len() && a != c ==> #[trigger] sel[a]
                != #[trigger] sel[c] && peers_rel(sel[a], sel[c]),
    decreases upto,
{
    lemma_group_props(gi);
    if upto <= 0 {
        let sel = Seq::<int>::empty();
        sel
    } else {
        let front = lemma_msk_sel_prefix(b, gi, m, upto - 1);
        assert forall|a: int| 0 <= a < front.len() implies sel_from(
            gi,
            m,
            upto,
            #[trigger] front[a],
        ) by {
            lemma_sel_from_widen(gi, m, upto - 1, upto, front[a]);
        }
        if pos_bit(m, upto - 1) {
            let idx = group_seq(gi)[upto - 1];
            let sel = front.push(idx);
            assert(sel_from(gi, m, upto, idx)) by {
                assert(0 <= upto - 1 < upto && pos_bit(m, upto - 1) && idx == group_seq(
                    gi,
                )[upto - 1]);
            }
            assert forall|a: int|
                0 <= a < sel.len() implies in_board(#[trigger] sel[a]) && is_open(b[sel[a]])
                && open_set(b[sel[a]]).subset_of(msk_union(b, gi, m)) by {
                if a < front.len() {
                    assert(sel[a] == front[a]);
                } else {
                    assert(sel[a] == idx);
                    assert(is_open(b[idx]));
                    assert forall|d: int| open_set(b[idx]).contains(d) implies msk_union(
                        b,
                        gi,
                        m,
                    ).contains(d) by {
                        assert(open_set(b[group_seq(gi)[upto - 1]]).contains(d));
                    }
                }
            }
            assert forall|a: int, c: int|
                0 <= a < sel.len() && 0 <= c < sel.len() && a != c implies #[trigger] sel[a]
                != #[trigger] sel[c] && peers_rel(sel[a], sel[c]) by {
                if a < front.len() && c < front.len() {
                    assert(sel[a] == front[a] && sel[c] == front[c]);
                } else {
                    let lo = if a < c {
                        a
                    } else {
                        c
                    };
                    assert(sel[lo] == front[lo]);
                    assert(sel_from(gi, m, upto - 1, front[lo]));
                    let k = choose|k: int|
                        0 <= k < upto - 1 && pos_bit(m, k) && front[lo] == #[trigger] group_seq(
                            gi,
                        )[k];
                    assert(group_seq(gi)[k] != group_seq(gi)[upto - 1]);
                    assert(peers_rel(group_seq(gi)[k], group_seq(gi)[upto - 1]));
                }
            }
            assert forall|a: int| 0 <= a < sel.len() implies sel_from(
                gi,
                m,
                upto,
                #[trigger] sel[a],
            ) by {
                if a < front.len() {
                    assert(sel[a] == front[a]);
                } else {
                    assert(sel[a] == idx);
                }
            }
            assert forall|k: int|
                0 <= k < upto && pos_bit(m, k) implies sel.contains(
                #[trigger] group_seq(gi)[k],
            ) by {
                if k < upto - 1 {
                    assert(front.contains(group_seq(gi)[k]));
                    let a = choose|a: int|
                        0 <= a < front.len() && front[a] == group_seq(gi)[k];
                    assert(sel[a] == group_seq(gi)[k]);
                } else {
                    assert(sel[sel.len() - 1] == group_seq(gi)[k]);
                }
            }
            sel
        } else {
            front
        }
    }
}

/// No cell of a group outside a naked subset of it takes one of the
/// subset's digits in any admitted solution.
pub proof fn lemma_naked_sound_target(b: Seq<Cell>, s: Seq<int>, gi: int, m: int, kt: int)
    requires
        board_wf(b),
        admits(b, s),
        msk_naked(b, gi, m),
        0 <= kt < 9,
        !pos_bit(m, kt),
    ensures
        !msk_union(b, gi, m).contains(s[group_seq(gi)[kt]]),
{
    lemma_group_props(gi);
    let sel = lemma_msk_sel_prefix(b, gi, m, 9);
    let u = msk_union(b, gi, m);
    assert(u.finite()) by {
        lemma_all_digits_len();
        assert forall|d: int| u.contains(d) implies all_digits().contains(d) by {
            let k = choose|k: int|
                0 <= k < 9 && pos_bit(m, k) && #[trigger] open_set(
                    b[group_seq(gi)[k]],
                ).contains(d);
            assert(cell_wf(b[group_seq(gi)[k]]));
            match b[group_seq(gi)[k]] {
                Cell::Possibilities(ds) => {
                    lemma_digit_set_bounds(ds);
                },
                Cell::Value(_) => {},
            }
        }
        lemma_len_subset(u, all_digits());
    }
    let t = group_seq(gi)[kt];
    assert forall|a: int| 0 <= a < sel.len() implies #[trigger] sel[a] != t && peers_rel(
        t,
        sel[a],
    ) by {
        assert(sel_from(gi, m, 9, sel[a]));
        let k = choose|k: int|
            0 <= k < 9 && pos_bit(m, k) && sel[a] == #[trigger] group_seq(gi)[k];
        assert(k != kt);
    }
    lemma_confined_digits(b, s, sel, u, t);
}

/// The group cells at the positions below `upto` that the mask does not
/// select, in position order.
pub open spec fn unsel_seq(g: Seq<int>, m: int, upto: int) -> Seq<int>
    decreases upto,
{
    if upto <= 0 {
        Seq::empty()
    } else if pos_bit(m, upto - 1) {
        unsel_seq(g, m, upto - 1)
    } else {
        unsel_seq(g, m, upto - 1).push(g[upto - 1])
    }
}

/// Every unselected cell lies on the board and at an unselected position,
/// and every unselected position appears in the sequence.
pub proof fn lemma_unsel_props(gi: int, m: int, upto: int)
    requires
        0 <= gi < 27,
        0 <= upto <= 9,
    ensures
        forall|q: int|
            0 <= q < unsel_seq(group_seq(gi), m, upto).len() ==> in_board(
                #[trigger] unsel_seq(group_seq(gi), m, upto)[q],
            ) && exists|k3: int|
                0 <= k3 < upto && !pos_bit(m, k3) && unsel_seq(group_seq(gi), m, upto)[q]
                    == group_seq(gi)[k3],
        forall|k3: int|
            0 <= k3 < upto && !(#[trigger] pos_bit(m, k3)) ==> exists|q: int|
                0 <= q < unsel_seq(group_seq(gi), m, upto).len() && #[trigger] unsel_seq(
                    group_seq(gi),
                    m,
                    upto,
                )[q] == group_seq(gi)[k3],
    decreases upto,
{
    lemma_group_props(gi);
    let g = group_seq(gi);
    if upto > 0 {
        lemma_unsel_props(gi, m, upto - 1);
        let front = unsel_seq(g, m, upto - 1);
        let cur = unsel_seq(g, m, upto);
        assert forall|q: int|
            0 <= q < cur.len() implies in_board(#[trigger] cur[q]) && exists|k3: int|
            0 <= k3 < upto && !pos_bit(m, k3) && cur[q] == group_seq(gi)[k3] by {
            if q < front.len() {
                assert(cur[q] == front[q]);
                let k3 = choose|k3: int|
                    0 <= k3 < upto - 1 && !pos_bit(m, k3) && front[q] == #[trigger] group_seq(
                        gi,
                    )[k3];
                assert(0 <= k3 < upto && !pos_bit(m, k3) && cur[q] == group_seq(gi)[k3]);
            } else {
                assert(!pos_bit(m, upto - 1));
                assert(cur[q] == g[upto - 1]);
                assert(0 <= upto - 1 < upto && !pos_bit(m, upto - 1) && cur[q] == group_seq(
                    gi,
                )[upto - 1]);
            }
        }
        assert forall|k3: int|
            0 <= k3 < upto && !(#[trigger] pos_bit(m, k3)) implies exists|q: int|
            0 <= q < cur.len() && #[trigger] cur[q] == group_seq(gi)[k3] by {
            if k3 < upto - 1 {
                let q = choose|q: int|
                    0 <= q < front.len() && #[trigger] front[q] == group_seq(gi)[k3];
                if pos_bit(m, upto - 1) {
                    assert(cur[q] == front[q]);
                } else {
                    assert(cur[q] == front[q]);
                }
            } else {
                assert(cur[cur.len() - 1] == group_seq(gi)[k3]);
            }
        }
    }
}

/// Every digit that elimination took from a cell that is still open is
/// held, on the final board, by some fixed peer of that cell.
pub open spec fn removal_justified(b0: Seq<Cell>, b: Seq<Cell>) -> bool {
    forall|j: int, d: int|
        0 <= j < 81 && is_open(b[j]) && open_set(b0[j]).contains(d) && !(#[trigger] open_set(
            b[j],
        ).contains(d)) ==> exists|i: int|
            0 <= i < 81 && i != j && peers_rel(i, j) && is_fixed(#[trigger] b[i]) && fixed_digit(
                b[i],
            ) == d
}

/// Every cell is either untouched or collapsed from open to fixed.
pub open spec fn collapses_only(b0: Seq<Cell>, b: Seq<Cell>) -> bool {
    forall|i: int| 0 <= i < 81 ==> #[trigger] b[i] == b0[i] || (is_open(b0[i]) && is_fixed(b[i]))
}

/// No cell that the pass newly fixed shares its digit with a still-open
/// cell of its block: the digit really had only one place left there.
pub open spec fn assignments_unique_in_block(b0: Seq<Cell>, b: Seq<Cell>) -> bool {
    forall|i: int, j: int|
        0 <= i < 81 && 0 <= j < 81 && i != j && #[trigger] same_block(i, j) && is_open(b0[i])
            && is_fixed(b[i]) && is_open(b[j]) ==> !open_set(b[j]).contains(fixed_digit(b[i]))
}

} // verus!
//! The 81-cell board, its construction and seeding, and the three deduction
//! rules with their contracts.

use vstd::prelude::*;
use vstd::pervasive::VecAdditionalExecFns;
use vstd::string::StrSliceExecFns;
use crate::digits::DigitSet;
use crate::digits::all_digits;
use crate::digits::lemma_digit_set_bounds;
use crate::digits::lemma_digit_set_eq;
use crate::digits::lemma_len1_elements_equal;
use crate::geometry::group_indices;
use crate::geometry::group_seq;
use crate::geometry::in_board;
use crate::geometry::lemma_group_props;
use crate::geometry::peer_indices;
use crate::geometry::peers_rel;
use crate::geometry::same_block;
use crate::model::Cell;
use crate::model::admits;
use crate::model::block_eliminated;
use crate::model::board_wf;
use crate::model::cell_admits;
use crate::model::cell_refines;
use crate::model::cell_wf;
use crate::model::elimination_stuck;
use crate::model::eliminated;
use crate::model::fixed_digit;
use crate::model::is_fixed;
use crate::model::is_open;
use crate::model::lemma_refines_refl;
use crate::model::lemma_refines_trans;
use crate::model::lemma_refines_update;
use crate::model::lemma_refines_weight;
use crate::model::lemma_refines_weight_lt;
use crate::model::lemma_naked_sound_target;
use crate::model::msk_card;
use crate::model::msk_naked;
use crate::model::msk_open;
use crate::model::msk_removal_empty;
use crate::model::msk_union;
use crate::model::msk_union_upto;
use crate::model::naked_noop;
use crate::model::pos_bit;
use crate::model::pow2;
use crate::model::unsel_seq;
use crate::model::lemma_unsel_props;
use crate::model::removal_justified;
use crate::model::collapses_only;
use crate::model::assignments_unique_in_block;
use crate::model::hidden_stuck;
use crate::model::hidden_trigger;
use crate::model::lemma_hidden_sound;
use crate::model::no_ready_single;
use crate::model::others_union;
use crate::model::others_union_upto;
use crate::model::open_set;
use crate::model::refines;
use crate::model::sound_step;
use crate::model::weight;
use crate::model::weight_prefix;
use crate::model::cell_weight;
use crate::model::lemma_eliminated_blocks;

verus! {

/// Fixed cells agree between the two boards; used while a pass has not yet
/// collapsed anything.
pub open spec fn same_fixed(b2: Seq<Cell>, b1: Seq<Cell>) -> bool {
    forall|j: int|
        0 <= j < 81 ==> (is_fixed(#[trigger] b2[j]) == is_fixed(#[trigger] b1[j]) && (is_fixed(
            b1[j],
        ) ==> b2[j] == b1[j]))
}

/// Elimination is complete for every fixed cell with index below `n`.
pub open spec fn elim_done_upto(b: Seq<Cell>, n: int) -> bool {
    forall|i: int, j: int|
        0 <= i < n && 0 <= j < 81 && i != j && peers_rel(i, j) && is_fixed(#[trigger] b[i])
            && is_open(#[trigger] b[j]) ==> !open_set(b[j]).contains(fixed_digit(b[i]))
}

/// No open peer of a fixed cell with index below `n` has one candidate left.
pub open spec fn nosing_upto(b: Seq<Cell>, n: int) -> bool {
    forall|i: int, j: int|
        0 <= i < n && 0 <= j < 81 && i != j && peers_rel(i, j) && is_fixed(#[trigger] b[i])
            && is_open(#[trigger] b[j]) ==> open_set(b[j]).len() != 1
}

/// The pass has already handled peer `j` of the fixed cell `i` holding `v`.
pub open spec fn peer_processed(b: Seq<Cell>, i: int, v: int, j: int) -> bool {
    j != i && 0 <= j < 81 && is_open(b[j]) ==> (!open_set(b[j]).contains(v) && open_set(
        b[j],
    ).len() != 1)
}

/// One pending elimination of the naked-subset rule: the digits of a naked
/// subset and the cells of its group outside the subset.
struct NakedElim {
    values: DigitSet,
    targets: Vec<usize>,
    grp: Ghost<int>,
    msk: Ghost<int>,
}

/// The sequence `ts` holds exactly the cells of group `gi` at the
/// positions that mask `m` does not select, in position order.
spec fn targets_match(ts: Seq<usize>, gi: int, m: int) -> bool {
    ts.map_values(|x: usize| x as int) == unsel_seq(group_seq(gi), m, 9)
}

/// The record describes a naked subset of the board `b`, its digit union,
/// and exactly the cells of its group outside the subset.
spec fn record_ok(b: Seq<Cell>, rec: NakedElim) -> bool {
    &&& rec.values.wf()
    &&& msk_naked(b, rec.grp@, rec.msk@)
    &&& rec.values@ == msk_union(b, rec.grp@, rec.msk@)
    &&& targets_match(rec.targets@, rec.grp@, rec.msk@)
}

/// Applying the record to board `b` removes nothing.
spec fn record_noop(b: Seq<Cell>, rec: NakedElim) -> bool {
    forall|q: int|
        0 <= q < rec.targets@.len() && is_open(b[(#[trigger] rec.targets@[q]) as int])
            ==> open_set(b[rec.targets@[q] as int]).disjoint(rec.values@)
}

/// Some record stands for the selection `m` of group `gi`.
spec fn recorded(rs: Seq<NakedElim>, gi: int, m: int) -> bool {
    exists|ri: int| 0 <= ri < rs.len() && (#[trigger] rs[ri]).grp@ == gi && rs[ri].msk@ == m
}

/// The powers of two up to 512, for reading selection masks.
fn pow2_small(k: usize) -> (r: usize)
    requires
        k < 10,
    ensures
        r as int == pow2(k as int),
        r >= 1,
{
    proof {
        assert(pow2(0) == 1);
        assert(pow2(1) == 2);
        assert(pow2(2) == 4);
        assert(pow2(3) == 8);
        assert(pow2(4) == 16);
        assert(pow2(5) == 32);
        assert(pow2(6) == 64);
        assert(pow2(7) == 128);
        assert(pow2(8) == 256);
        assert(pow2(9) == 512);
    }
    match k {
        0 => 1,
        1 => 2,
        2 => 4,
        3 => 8,
        4 => 16,
        5 => 32,
        6 => 64,
        7 => 128,
        8 => 256,
        _ => 512,
    }
}

/// The board indices of the group positions that the mask does not select.
fn unselected_targets(g: &Vec<usize>, gi: usize, m: usize) -> (targets: Vec<usize>)
    requires
        gi < 27,
        m < 512,
        g@.len() == 9,
        forall|k: int|
            0 <= k < 9 ==> (#[trigger] g@[k]) < 81 && g@[k] as int == group_seq(gi as int)[k],
    ensures
        targets_match(targets@, gi as int, m as int),
{
    let ghost gs = group_seq(gi as int);
    let mut targets: Vec<usize> = Vec::new();
    let mut k2: usize = 0;
    proof {
        assert(targets@.map_values(|x: usize| x as int) =~= unsel_seq(gs, m as int, 0));
    }
    while k2 < 9
        invariant
            k2 <= 9,
            m < 512,
            gi < 27,
            g@.len() == 9,
            gs == group_seq(gi as int),
            forall|k3: int|
                0 <= k3 < 9 ==> (#[trigger] g@[k3]) < 81 && g@[k3] as int == group_seq(
                    gi as int,
                )[k3],
            targets@.map_values(|x: usize| x as int) == unsel_seq(gs, m as int, k2 as int),
        decreases 9 - k2,
    {
        let pk2 = pow2_small(k2);
        let bit2 = (m / pk2) % 2 == 1;
        proof {
            assert(bit2 == pos_bit(m as int, k2 as int));
        }
        let ghost tprev = targets@;
        if !bit2 {
            targets.push(g[k2]);
            proof {
                assert(targets@.map_values(|x: usize| x as int) =~= tprev.map_values(
                    |x: usize| x as int,
                ).push(g@[k2 as int] as int));
                assert(unsel_seq(gs, m as int, k2 as int + 1) == unsel_seq(
                    gs,
                    m as int,
                    k2 as int,
                ).push(gs[k2 as int]));
            }
        } else {
            proof {
                assert(unsel_seq(gs, m as int, k2 as int + 1) == unsel_seq(
                    gs,
                    m as int,
                    k2 as int,
                ));
            }
        }
        k2 = k2 + 1;
    }
    targets
}

/// The puzzle string is not exactly 81 characters, or holds a character
/// that is not a decimal digit.
#[derive(Clone, Copy, PartialEq, Eq, Structural, Debug)]
pub struct FormatError;

/// An 81-cell Sudoku board, indexed 0..81 in row-major order.
pub struct Board {
    cells: Vec<Cell>,
}

impl View for Board {
    type V = Seq<Cell>;

    closed spec fn view(&self) -> Seq<Cell> {
        self.cells@
    }
}

/// The character is a decimal digit.
pub open spec fn is_digit_char(c: char) -> bool {
    48 <= c as int <= 57
}

/// A well-formed puzzle string: exactly 81 decimal digits.
pub open spec fn puzzle_ok(p: Seq<char>) -> bool {
    p.len() == 81 && forall|i: int| 0 <= i < 81 ==> is_digit_char(#[trigger] p[i])
}

/// What loading writes into one cell: `'0'` leaves the cell as it stands,
/// any other digit overwrites it.
pub open spec fn loaded_cell(prev: Cell, c: char) -> Cell {
    if c as int == 48 {
        prev
    } else {
        Cell::Value((c as int - 48) as u8)
    }
}

impl Board {
    /// All cells well formed.
    pub open spec fn wf(&self) -> bool {
        board_wf(self@)
    }

    /// A fresh board: every cell open with all nine digits possible.
    pub fn new() -> (r: Board)
        ensures
            r.wf(),
            forall|i: int|
                0 <= i < 81 ==> is_open(#[trigger] r@[i]) && open_set(r@[i]) == all_digits(),
    {
        let full = DigitSet::full();
        let mut cells: Vec<Cell> = Vec::new();
        let mut i: usize = 0;
        while i < 81
            invariant
                i <= 81,
                cells@.len() == i,
                full.wf(),
                full@ == all_digits(),
                forall|t: int|
                    0 <= t < i ==> #[trigger] cells@[t] == Cell::Possibilities(full),
            decreases 81 - i,
        {
            cells.push(Cell::Possibilities(full));
            i = i + 1;
        }
        let r = Board { cells };
        proof {
            assert(forall|t: int|
                0 <= t < 81 ==> cell_wf(#[trigger] r@[t]) && is_open(r@[t]) && open_set(r@[t])
                    == all_digits());
        }
        r
    }

    /// Seed the board from an 81-character puzzle string; `'0'` leaves a
    /// cell untouched, any other digit fixes it. A string of the wrong
    /// length or with a non-digit character is rejected unchanged.
    pub fn load_sudoku(&mut self, sudoku: &str) -> (r: Result<(), FormatError>)
        requires
            old(self).wf(),
        ensures
            final(self).wf(),
            r is Ok <==> puzzle_ok(sudoku@),
            r is Ok ==> forall|i: int|
                0 <= i < 81 ==> #[trigger] final(self)@[i] == loaded_cell(
                    old(self)@[i],
                    sudoku@[i],
                ),
            r is Err ==> final(self)@ == old(self)@,
    {
        let n = sudoku.unicode_len();
        if n != 81 {
            return Err(FormatError);
        }
        let mut i: usize = 0;
        while i < 81
            invariant
                i <= 81,
                sudoku@.len() == 81,
                self == old(self),
                self.wf(),
                forall|t: int| 0 <= t < i ==> is_digit_char(#[trigger] sudoku@[t]),
            decreases 81 - i,
        {
            let c = sudoku.get_char(i);
            let u = c as u32;
            if u < 48 || u > 57 {
                return Err(FormatError);
            }
            i = i + 1;
        }
        let mut i: usize = 0;
        while i < 81
            invariant
                i <= 81,
                sudoku@.len() == 81,
                puzzle_ok(sudoku@),
                self@.len() == 81,
                self.wf(),
                forall|t: int|
                    0 <= t < i ==> #[trigger] self@[t] == loaded_cell(old(self)@[t], sudoku@[t]),
                forall|t: int| i <= t < 81 ==> #[trigger] self@[t] == old(self)@[t],
            decreases 81 - i,
        {
            let c = sudoku.get_char(i);
            let u = c as u32;
            if u != 48 {
                let d = (u - 48) as u8;
                self.cells.set(i, Cell::Value(d));
            }
            i = i + 1;
        }
        Ok(())
    }

    /// The cell at index `i`.
    pub fn cell_at(&self, i: usize) -> (c: Cell)
        requires
            i < self@.len(),
        ensures
            c == self@[i as int],
    {
        self.cells[i]
    }

    /// Elimination by fixed values: for every fixed cell, drop its digit
    /// from every open peer; an open peer left with a single candidate is
    /// collapsed to that digit at once, visibly to the rest of the same
    /// pass. Reports whether any cell was collapsed.
    #[verifier::rlimit(60)]
    pub fn check_solved_cells(&mut self) -> (r: bool)
        requires
            old(self).wf(),
        ensures
            final(self).wf(),
            refines(final(self)@, old(self)@),
            sound_step(old(self)@, final(self)@),
            weight(final(self)@) <= weight(old(self)@),
            r ==> weight(final(self)@) < weight(old(self)@),
            !r ==> elimination_stuck(final(self)@),
            elimination_stuck(old(self)@) ==> !r && final(self)@ == old(self)@,
            r == (exists|i: int|
                0 <= i < 81 && is_open(old(self)@[i]) && is_fixed(#[trigger] final(self)@[i])),
            removal_justified(old(self)@, final(self)@),
    {
        let ghost b0 = self@;
        let mut found = false;
        let mut i: usize = 0;
        proof {
            lemma_refines_refl(b0);
        }
        while i < 81
            invariant
                i <= 81,
                board_wf(b0),
                self.wf(),
                refines(self@, b0),
                sound_step(b0, self@),
                found ==> weight(self@) < weight(b0),
                !found ==> same_fixed(self@, b0),
                !found ==> elim_done_upto(self@, i as int),
                !found ==> nosing_upto(self@, i as int),
                elimination_stuck(b0) ==> self@ == b0 && !found,
                found ==> exists|i2: int|
                    0 <= i2 < 81 && is_open(b0[i2]) && is_fixed(#[trigger] self@[i2]),
                removal_justified(b0, self@),
            decreases 81 - i,
        {
            let cell = self.cell_at(i);
            if let Cell::Value(v) = cell {
                let ps = peer_indices(i);
                let mut t: usize = 0;
                while t < 27
                    invariant
                        t <= 27,
                        i < 81,
                        board_wf(b0),
                        self.wf(),
                        self@[i as int] == Cell::Value(v),
                        1 <= v <= 9,
                        ps@.len() == 27,
                        forall|q: int|
                            0 <= q < 27 ==> (#[trigger] ps@[q]) < 81 && peers_rel(
                                i as int,
                                ps@[q] as int,
                            ),
                        forall|j: int|
                            in_board(j) && peers_rel(i as int, j) ==> exists|q: int|
                                0 <= q < 27 && (#[trigger] ps@[q]) as int == j,
                        refines(self@, b0),
                        sound_step(b0, self@),
                        found ==> weight(self@) < weight(b0),
                        !found ==> same_fixed(self@, b0),
                        !found ==> elim_done_upto(self@, i as int),
                        !found ==> nosing_upto(self@, i as int),
                        !found ==> forall|q: int|
                            0 <= q < t ==> peer_processed(self@, i as int, v as int, (#[trigger] ps@[q]) as int),
                        elimination_stuck(b0) ==> self@ == b0 && !found,
                        found ==> exists|i2: int|
                            0 <= i2 < 81 && is_open(b0[i2]) && is_fixed(#[trigger] self@[i2]),
                        removal_justified(b0, self@),
                    decreases 27 - t,
                {
                    let j = ps[t];
                    if j != i {
                        let cj = self.cell_at(j);
                        if let Cell::Possibilities(p) = cj {
                            let ghost prev = self@;
                            let p2 = p.remove(v);
                            let cnt = p2.count();
                            proof {
                                lemma_digit_set_bounds(p);
                                lemma_digit_set_bounds(p2);
                                assert(peers_rel(i as int, j as int));
                            }
                            if cnt == 1 {
                                let d = p2.smallest();
                                self.cells.set(j, Cell::Value(d));
                                proof {
                                    assert(cell_refines(Cell::Value(d), prev[j as int]));
                                    lemma_refines_update(prev, j as int, Cell::Value(d));
                                    lemma_refines_trans(self@, prev, b0);
                                    assert forall|s: Seq<int>| admits(b0, s) implies admits(
                                        self@,
                                        s,
                                    ) by {
                                        assert(admits(prev, s));
                                        assert(cell_admits(prev[i as int], s[i as int]));
                                        assert(s[i as int] == v as int);
                                        assert(cell_admits(prev[j as int], s[j as int]));
                                        assert(s[j as int] != v as int);
                                        assert(p2@.contains(s[j as int]));
                                        lemma_len1_elements_equal(p2@, s[j as int], d as int);
                                        assert forall|x: int| 0 <= x < 81 implies cell_admits(
                                            #[trigger] self@[x],
                                            s[x],
                                        ) by {
                                            if x != j as int {
                                                assert(self@[x] == prev[x]);
                                            }
                                        }
                                    }
                                    if found {
                                        lemma_refines_weight(prev, self@);
                                    } else {
                                        assert(is_open(b0[j as int]));
                                        lemma_refines_weight_lt(b0, self@, j as int);
                                    }
                                    assert(is_open(b0[j as int]) && is_fixed(self@[j as int]));
                                    assert forall|j2: int, d2: int|
                                        0 <= j2 < 81 && is_open(self@[j2]) && open_set(
                                            b0[j2],
                                        ).contains(d2) && !(#[trigger] open_set(
                                            self@[j2],
                                        ).contains(d2)) implies exists|i2: int|
                                        0 <= i2 < 81 && i2 != j2 && peers_rel(i2, j2) && is_fixed(
                                            #[trigger] self@[i2],
                                        ) && fixed_digit(self@[i2]) == d2 by {
                                        assert(self@[j2] == prev[j2]);
                                        assert(is_open(prev[j2]) && !open_set(prev[j2]).contains(
                                            d2,
                                        ));
                                        let i2 = choose|i2: int|
                                            0 <= i2 < 81 && i2 != j2 && peers_rel(i2, j2)
                                                && is_fixed(#[trigger] prev[i2]) && fixed_digit(
                                                prev[i2],
                                            ) == d2;
                                        assert(i2 != j as int);
                                        assert(self@[i2] == prev[i2]);
                                    }
                                }
                                found = true;
                            } else {
                                if !(p2 == p) {
                                    self.cells.set(j, Cell::Possibilities(p2));
                                    proof {
                                        assert(cell_refines(
                                            Cell::Possibilities(p2),
                                            prev[j as int],
                                        ));
                                        lemma_refines_update(
                                            prev,
                                            j as int,
                                            Cell::Possibilities(p2),
                                        );
                                        lemma_refines_trans(self@, prev, b0);
                                        assert forall|s: Seq<int>| admits(b0, s) implies admits(
                                            self@,
                                            s,
                                        ) by {
                                            assert(admits(prev, s));
                                            assert(cell_admits(prev[i as int], s[i as int]));
                                            assert(s[i as int] == v as int);
                                            assert(cell_admits(prev[j as int], s[j as int]));
                                            assert(s[j as int] != v as int);
                                            assert(p2@.contains(s[j as int]));
                                            assert forall|x: int| 0 <= x < 81 implies cell_admits(
                                                #[trigger] self@[x],
                                                s[x],
                                            ) by {
                                                if x != j as int {
                                                    assert(self@[x] == prev[x]);
                                                }
                                            }
                                        }
                                        if found {
                                            lemma_refines_weight(prev, self@);
                                            let i3 = choose|i3: int|
                                                0 <= i3 < 81 && is_open(b0[i3]) && is_fixed(
                                                    #[trigger] prev[i3],
                                                );
                                            assert(i3 != j as int);
                                            assert(is_fixed(self@[i3]));
                                        }
                                        assert forall|j2: int, d2: int|
                                            0 <= j2 < 81 && is_open(self@[j2]) && open_set(
                                                b0[j2],
                                            ).contains(d2) && !(#[trigger] open_set(
                                                self@[j2],
                                            ).contains(d2)) implies exists|i2: int|
                                            0 <= i2 < 81 && i2 != j2 && peers_rel(i2, j2)
                                                && is_fixed(#[trigger] self@[i2]) && fixed_digit(
                                                self@[i2],
                                            ) == d2 by {
                                            if j2 == j as int && p@.contains(d2) {
                                                assert(d2 == v as int);
                                                assert(0 <= i as int && (i as int) < 81 && i as int != j2
                                                    && peers_rel(i as int, j2) && is_fixed(
                                                    self@[i as int],
                                                ) && fixed_digit(self@[i as int]) == d2);
                                            } else {
                                                assert(is_open(prev[j2]) && !open_set(
                                                    prev[j2],
                                                ).contains(d2));
                                                let i2 = choose|i2: int|
                                                    0 <= i2 < 81 && i2 != j2 && peers_rel(i2, j2)
                                                        && is_fixed(#[trigger] prev[i2])
                                                        && fixed_digit(prev[i2]) == d2;
                                                assert(i2 != j as int);
                                                assert(self@[i2] == prev[i2]);
                                            }
                                        }
                                        if elimination_stuck(b0) {
                                            assert(!open_set(b0[j as int]).contains(v as int));
                                            assert(p2@ =~= p@);
                                            lemma_digit_set_eq(p, p2);
                                            assert(false);
                                        }
                                    }
                                } else {
                                    proof {
                                        assert(p2@ == p@);
                                        assert(!p@.contains(v as int));
                                    }
                                }
                            }
                        }
                    }
                    t = t + 1;
                }
                proof {
                    if !found {
                        assert forall|i2: int, j2: int|
                            0 <= i2 < i as int + 1 && 0 <= j2 < 81 && i2 != j2 && peers_rel(i2, j2)
                                && is_fixed(#[trigger] self@[i2]) && is_open(
                                #[trigger] self@[j2],
                            ) implies !open_set(self@[j2]).contains(fixed_digit(self@[i2]))
                            && open_set(self@[j2]).len() != 1 by {
                            if i2 == i as int {
                                assert(in_board(j2) && peers_rel(i as int, j2));
                                let q = choose|q: int|
                                    0 <= q < 27 && (#[trigger] ps@[q]) as int == j2;
                                assert(peer_processed(self@, i as int, v as int, ps@[q] as int));
                            }
                        }
                    }
                }
            }
            i = i + 1;
        }
        proof {
            lemma_refines_weight(b0, self@);
            if !found {
                assert(eliminated(self@));
                assert(no_ready_single(self@));
                assert forall|i2: int|
                    0 <= i2 < 81 implies !(is_open(b0[i2]) && is_fixed(#[trigger] self@[i2])) by {
                    assert(is_fixed(self@[i2]) == is_fixed(b0[i2]));
                }
            }
        }
        found
    }

    /// Hidden single within each 3x3 block: a digit that, among the open
    /// cells of a block, only one cell still lists, fixes that cell. Rows
    /// and columns are deliberately not scanned. Reports whether any cell
    /// was fixed.
    pub fn hidden_single(&mut self) -> (r: bool)
        requires
            old(self).wf(),
        ensures
            final(self).wf(),
            refines(final(self)@, old(self)@),
            block_eliminated(old(self)@) ==> sound_step(old(self)@, final(self)@),
            weight(final(self)@) <= weight(old(self)@),
            r ==> weight(final(self)@) < weight(old(self)@),
            r == !hidden_stuck(old(self)@),
            !r ==> final(self)@ == old(self)@,
            collapses_only(old(self)@, final(self)@),
            assignments_unique_in_block(old(self)@, final(self)@),
    {
        let ghost b0 = self@;
        let mut found = false;
        let mut f: usize = 0;
        proof {
            lemma_refines_refl(b0);
        }
        while f < 9
            invariant
                f <= 9,
                board_wf(b0),
                self.wf(),
                refines(self@, b0),
                block_eliminated(b0) ==> sound_step(b0, self@) && block_eliminated(self@),
                found ==> weight(self@) < weight(b0),
                found ==> !hidden_stuck(b0),
                !found ==> self@ == b0,
                !found ==> forall|f2: int, p2: int|
                    0 <= f2 < f && 0 <= p2 < 9 ==> !(#[trigger] hidden_trigger(b0, f2, p2)),
                collapses_only(b0, self@),
                assignments_unique_in_block(b0, self@),
            decreases 9 - f,
        {
            let g = group_indices(18 + f);
            proof {
                lemma_group_props(18 + f as int);
                crate::geometry::lemma_block_group_same_block(f as int);
            }
            let mut p: usize = 0;
            while p < 9
                invariant
                    p <= 9,
                    f < 9,
                    board_wf(b0),
                    self.wf(),
                    g@.len() == 9,
                    forall|k: int|
                        0 <= k < 9 ==> (#[trigger] g@[k]) < 81 && g@[k] as int == group_seq(
                            18 + f as int,
                        )[k],
                    refines(self@, b0),
                    block_eliminated(b0) ==> sound_step(b0, self@) && block_eliminated(self@),
                    found ==> weight(self@) < weight(b0),
                    found ==> !hidden_stuck(b0),
                    !found ==> self@ == b0,
                    !found ==> forall|f2: int, p2: int|
                        0 <= f2 < f && 0 <= p2 < 9 ==> !(#[trigger] hidden_trigger(b0, f2, p2)),
                    !found ==> forall|p2: int|
                        0 <= p2 < p ==> !(#[trigger] hidden_trigger(b0, f as int, p2)),
                    collapses_only(b0, self@),
                    assignments_unique_in_block(b0, self@),
                decreases 9 - p,
            {
                let idx1 = g[p];
                let c1 = self.cell_at(idx1);
                if let Cell::Possibilities(p1) = c1 {
                    let ghost gs = group_seq(18 + f as int);
                    let ghost prev = self@;
                    let mut u = DigitSet::empty();
                    let mut q: usize = 0;
                    proof {
                        assert(others_union_upto(prev, gs, p as int, 0) =~= Set::<int>::empty());
                    }
                    while q < 9
                        invariant
                            q <= 9,
                            p < 9,
                            f < 9,
                            self.wf(),
                            self@ == prev,
                            prev.len() == 81,
                            g@.len() == 9,
                            gs == group_seq(18 + f as int),
                            forall|k: int|
                                0 <= k < 9 ==> (#[trigger] g@[k]) < 81 && g@[k] as int == gs[k],
                            u.wf(),
                            u@ == others_union_upto(prev, gs, p as int, q as int),
                        decreases 9 - q,
                    {
                        if q != p {
                            let cq = self.cell_at(g[q]);
                            if let Cell::Possibilities(pq) = cq {
                                let u2 = u.union(pq);
                                proof {
                                    assert(others_union_upto(prev, gs, p as int, q as int + 1)
                                        =~= u@.union(pq@)) by {
                                        assert(is_open(prev[gs[q as int]]) && open_set(
                                            prev[gs[q as int]],
                                        ) == pq@);
                                    }
                                }
                                u = u2;
                            } else {
                                proof {
                                    assert(others_union_upto(prev, gs, p as int, q as int + 1)
                                        =~= others_union_upto(prev, gs, p as int, q as int)) by {
                                        assert(is_fixed(prev[gs[q as int]]));
                                    }
                                }
                            }
                        } else {
                            proof {
                                assert(others_union_upto(prev, gs, p as int, q as int + 1)
                                    =~= others_union_upto(prev, gs, p as int, q as int));
                            }
                        }
                        q = q + 1;
                    }
                    let diff = p1.difference(u);
                    let cnt = diff.count();
                    proof {
                        assert(u@ == others_union(prev, gs, p as int));
                        assert(diff@ == open_set(prev[gs[p as int]]).difference(
                            others_union(prev, gs, p as int),
                        ));
                    }
                    if cnt == 1 {
                        let d = diff.smallest();
                        self.cells.set(idx1, Cell::Value(d));
                        proof {
                            lemma_group_props(18 + f as int);
                            crate::geometry::lemma_block_group_same_block(f as int);
                            assert(diff@.contains(d as int));
                            assert(cell_refines(Cell::Value(d), prev[idx1 as int]));
                            lemma_refines_update(prev, idx1 as int, Cell::Value(d));
                            lemma_refines_trans(self@, prev, b0);
                            assert forall|i2: int|
                                0 <= i2 < 81 implies #[trigger] self@[i2] == b0[i2] || (is_open(
                                b0[i2],
                            ) && is_fixed(self@[i2])) by {
                                if i2 == idx1 as int {
                                    assert(is_open(prev[i2]));
                                    assert(prev[i2] == b0[i2] || (is_open(b0[i2]) && is_fixed(
                                        prev[i2],
                                    )));
                                    assert(prev[i2] == b0[i2]);
                                } else {
                                    assert(self@[i2] == prev[i2]);
                                }
                            }
                            assert forall|i2: int, j2: int|
                                0 <= i2 < 81 && 0 <= j2 < 81 && i2 != j2 && #[trigger] same_block(
                                    i2,
                                    j2,
                                ) && is_open(b0[i2]) && is_fixed(self@[i2]) && is_open(
                                    self@[j2],
                                ) implies !open_set(self@[j2]).contains(
                                fixed_digit(self@[i2]),
                            ) by {
                                if i2 == idx1 as int {
                                    assert(idx1 as int == gs[p as int]);
                                    assert(fixed_digit(self@[i2]) == d as int);
                                    assert(self@[j2] == prev[j2]);
                                    assert(same_block(group_seq(18 + f as int)[p as int], j2));
                                    let k2 = choose|k2: int|
                                        0 <= k2 < 9 && (#[trigger] group_seq(18 + f as int)[k2])
                                            == j2;
                                    assert(gs[k2] == j2);
                                    assert(k2 != p as int);
                                    if open_set(prev[j2]).contains(d as int) {
                                        assert(0 <= k2 < 9 && k2 != p as int && is_open(
                                            prev[gs[k2]],
                                        ) && open_set(prev[gs[k2]]).contains(d as int));
                                        assert(others_union(prev, gs, p as int).contains(
                                            d as int,
                                        ));
                                        assert(!diff@.contains(d as int));
                                        assert(false);
                                    }
                                } else if j2 == idx1 as int {
                                    assert(!is_open(self@[j2]));
                                } else {
                                    assert(self@[i2] == prev[i2] && self@[j2] == prev[j2]);
                                }
                            }
                            if block_eliminated(b0) {
                                assert forall|s: Seq<int>| admits(b0, s) implies admits(
                                    self@,
                                    s,
                                ) by {
                                    assert(admits(prev, s));
                                    lemma_hidden_sound(prev, s, f as int, p as int, d as int);
                                    assert(s[idx1 as int] == d as int);
                                    assert forall|x: int| 0 <= x < 81 implies cell_admits(
                                        #[trigger] self@[x],
                                        s[x],
                                    ) by {
                                        if x != idx1 as int {
                                            assert(self@[x] == prev[x]);
                                        }
                                    }
                                }
                                assert forall|i2: int, j2: int|
                                    0 <= i2 < 81 && 0 <= j2 < 81 && i2 != j2 && same_block(i2, j2)
                                        && is_fixed(#[trigger] self@[i2]) && is_open(
                                        #[trigger] self@[j2],
                                    ) implies !open_set(self@[j2]).contains(
                                    fixed_digit(self@[i2]),
                                ) by {
                                    if i2 == idx1 as int {
                                        assert(idx1 as int == gs[p as int]);
                                        assert(fixed_digit(self@[i2]) == d as int);
                                        assert(self@[j2] == prev[j2]);
                                        assert(same_block(
                                            group_seq(18 + f as int)[p as int],
                                            j2,
                                        ));
                                        let k2 = choose|k2: int|
                                            0 <= k2 < 9 && (#[trigger] group_seq(
                                                18 + f as int,
                                            )[k2]) == j2;
                                        assert(gs[k2] == j2);
                                        assert(k2 != p as int);
                                        if open_set(prev[j2]).contains(d as int) {
                                            assert(0 <= k2 < 9 && k2 != p as int && is_open(
                                                prev[gs[k2]],
                                            ) && open_set(prev[gs[k2]]).contains(d as int));
                                            assert(others_union(prev, gs, p as int).contains(
                                                d as int,
                                            ));
                                            assert(!diff@.contains(d as int));
                                            assert(false);
                                        }
                                    } else if j2 == idx1 as int {
                                        assert(is_open(self@[j2]) == false);
                                    } else {
                                        assert(self@[i2] == prev[i2] && self@[j2] == prev[j2]);
                                    }
                                }
                            }
                            if found {
                                lemma_refines_weight(prev, self@);
                            } else {
                                assert(self@ == b0.update(idx1 as int, Cell::Value(d)));
                                assert(is_open(b0[idx1 as int]));
                                lemma_refines_weight_lt(b0, self@, idx1 as int);
                                assert(hidden_trigger(b0, f as int, p as int));
                                assert(!hidden_stuck(b0)) by {
                                    if hidden_stuck(b0) {
                                        assert(!hidden_trigger(b0, f as int, p as int));
                                    }
                                }
                            }
                        }
                        found = true;
                    } else {
                        proof {
                            if !found {
                                assert forall|p2: int|
                                    0 <= p2 < p as int + 1 implies !(#[trigger] hidden_trigger(
                                    b0,
                                    f as int,
                                    p2,
                                )) by {
                                    if p2 == p as int {
                                        assert(open_set(b0[gs[p as int]]).difference(
                                            others_union(b0, gs, p as int),
                                        ).len() == cnt);
                                    }
                                }
                            }
                        }
                    }
                } else {
                    proof {
                        if !found {
                            assert forall|p2: int|
                                0 <= p2 < p as int + 1 implies !(#[trigger] hidden_trigger(
                                b0,
                                f as int,
                                p2,
                            )) by {
                                if p2 == p as int {
                                    assert(is_fixed(b0[group_seq(18 + f as int)[p as int]]));
                                }
                            }
                        }
                    }
                }
                p = p + 1;
            }
            f = f + 1;
        }
        proof {
            lemma_refines_weight(b0, self@);
            if !found {
                assert(hidden_stuck(b0));
            }
        }
        found
    }

    /// Scan one selection mask `m` of group `gi`: when it picks a naked
    /// subset, return the pending elimination for it.
    fn examine_selection(&self, g: &Vec<usize>, gi: usize, m: usize) -> (res: Option<NakedElim>)
        requires
            self.wf(),
            gi < 27,
            m < 512,
            g@.len() == 9,
            forall|k: int|
                0 <= k < 9 ==> (#[trigger] g@[k]) < 81 && g@[k] as int == group_seq(gi as int)[k],
        ensures
            match res {
                Some(rec) => record_ok(self@, rec) && rec.grp@ == gi as int && rec.msk@
                    == m as int,
                None => !msk_naked(self@, gi as int, m as int),
            },
    {
        let ghost b0 = self@;
        let mut ok = true;
        let mut n: usize = 0;
        let mut u = DigitSet::empty();
        let mut k: usize = 0;
        proof {
            assert(msk_union_upto(b0, gi as int, m as int, 0) =~= Set::<int>::empty());
        }
        while k < 9
            invariant
                k <= 9,
                m < 512,
                gi < 27,
                self.wf(),
                self@ == b0,
                g@.len() == 9,
                forall|k2: int|
                    0 <= k2 < 9 ==> (#[trigger] g@[k2]) < 81 && g@[k2] as int == group_seq(
                        gi as int,
                    )[k2],
                n <= k,
                n as int == msk_card(m as int, k as int),
                ok == (forall|k2: int|
                    0 <= k2 < k && pos_bit(m as int, k2) ==> is_open(
                        b0[#[trigger] group_seq(gi as int)[k2]],
                    )),
                ok ==> u@ == msk_union_upto(b0, gi as int, m as int, k as int),
                u.wf(),
            decreases 9 - k,
        {
            let pk = pow2_small(k);
            let bit = (m / pk) % 2 == 1;
            proof {
                assert(bit == pos_bit(m as int, k as int));
            }
            if bit {
                n = n + 1;
                match self.cell_at(g[k]) {
                    Cell::Possibilities(pq) => {
                        let u2 = u.union(pq);
                        proof {
                            if ok {
                                assert(msk_union_upto(b0, gi as int, m as int, k as int + 1)
                                    =~= u@.union(pq@)) by {
                                    assert(is_open(b0[group_seq(gi as int)[k as int]]) && open_set(
                                        b0[group_seq(gi as int)[k as int]],
                                    ) == pq@);
                                }
                            }
                        }
                        u = u2;
                    },
                    Cell::Value(_) => {
                        ok = false;
                    },
                }
            } else {
                proof {
                    assert(msk_union_upto(b0, gi as int, m as int, k as int + 1)
                        =~= msk_union_upto(b0, gi as int, m as int, k as int));
                }
            }
            k = k + 1;
        }
        if ok && n >= 2 && n <= 4 {
            let cnt = u.count();
            if cnt == n {
                let targets = unselected_targets(g, gi, m);
                let rec = NakedElim {
                    values: u,
                    targets,
                    grp: Ghost(gi as int),
                    msk: Ghost(m as int),
                };
                proof {
                    assert(msk_open(b0, gi as int, m as int));
                    assert(u@ == msk_union(b0, gi as int, m as int));
                    assert(msk_naked(b0, gi as int, m as int));
                    assert(record_ok(b0, rec));
                }
                Some(rec)
            } else {
                proof {
                    assert(u@ == msk_union(b0, gi as int, m as int));
                    assert(!msk_naked(b0, gi as int, m as int));
                }
                None
            }
        } else {
            proof {
                if ok {
                    assert(!msk_naked(b0, gi as int, m as int));
                } else {
                    assert(!msk_open(b0, gi as int, m as int));
                    assert(!msk_naked(b0, gi as int, m as int));
                }
            }
            None
        }
    }

    /// Apply one pending elimination, removing its digits from every open
    /// target cell still listing one; report whether any cell changed.
    fn apply_record(
        &mut self,
        vals: DigitSet,
        targets: &Vec<usize>,
        Ghost(b0): Ghost<Seq<Cell>>,
        Ghost(gmi): Ghost<int>,
        Ghost(mmi): Ghost<int>,
    ) -> (ch: bool)
        requires
            board_wf(b0),
            old(self).wf(),
            refines(old(self)@, b0),
            sound_step(b0, old(self)@),
            msk_naked(b0, gmi, mmi),
            vals.wf(),
            vals@ == msk_union(b0, gmi, mmi),
            targets_match(targets@, gmi, mmi),
        ensures
            final(self).wf(),
            refines(final(self)@, old(self)@),
            sound_step(b0, final(self)@),
            ch ==> weight(final(self)@) < weight(old(self)@),
            !ch ==> final(self)@ == old(self)@,
            ch && old(self)@ == b0 ==> !naked_noop(b0),
            !ch && old(self)@ == b0 ==> forall|q: int|
                0 <= q < targets@.len() && is_open(b0[(#[trigger] targets@[q]) as int])
                    ==> open_set(b0[targets@[q] as int]).disjoint(vals@),
    {
        let ghost start = self@;
        let mut changed = false;
        let tlen = targets.len();
        let mut q: usize = 0;
        while q < tlen
            invariant
                q <= tlen,
                tlen == targets@.len(),
                board_wf(b0),
                self.wf(),
                refines(start, b0),
                refines(self@, start),
                sound_step(b0, start),
                sound_step(b0, self@),
                0 <= gmi < 27,
                msk_naked(b0, gmi, mmi),
                vals.wf(),
                vals@ == msk_union(b0, gmi, mmi),
                targets_match(targets@, gmi, mmi),
                changed ==> weight(self@) < weight(start),
                !changed ==> self@ == start,
                changed && start == b0 ==> !naked_noop(b0),
                !changed && start == b0 ==> forall|q2: int|
                    0 <= q2 < q && is_open(b0[(#[trigger] targets@[q2]) as int]) ==> open_set(
                        b0[targets@[q2] as int],
                    ).disjoint(vals@),
            decreases tlen - q,
        {
            proof {
                lemma_unsel_props(gmi, mmi, 9);
                assert(targets@.map_values(|x: usize| x as int)[q as int] == targets@[q as int]
                    as int);
                assert(in_board(unsel_seq(group_seq(gmi), mmi, 9)[q as int]));
            }
            let t = targets[q];
            let ct = self.cell_at(t);
            if let Cell::Possibilities(pt) = ct {
                let p2 = pt.difference(vals);
                if !(p2 == pt) {
                    let ghost prev = self@;
                    self.cells.set(t, Cell::Possibilities(p2));
                    proof {
                        lemma_unsel_props(gmi, mmi, 9);
                        lemma_digit_set_bounds(pt);
                        lemma_digit_set_bounds(p2);
                        lemma_digit_set_eq(pt, p2);
                        assert(p2@ != pt@);
                        assert(exists|dd: int| pt@.contains(dd) && !p2@.contains(dd)) by {
                            if forall|dd: int| pt@.contains(dd) ==> #[trigger] p2@.contains(dd) {
                                assert(pt@ =~= p2@);
                            }
                        }
                        let dd = choose|dd: int| pt@.contains(dd) && !p2@.contains(dd);
                        assert(vals@.contains(dd));
                        assert(cell_refines(Cell::Possibilities(p2), prev[t as int]));
                        lemma_refines_update(prev, t as int, Cell::Possibilities(p2));
                        lemma_refines_trans(self@, prev, start);
                        let kt = choose|kt: int|
                            0 <= kt < 9 && !pos_bit(mmi, kt) && unsel_seq(group_seq(gmi), mmi, 9)[
                                q as int
                            ] == group_seq(gmi)[kt];
                        assert(t as int == group_seq(gmi)[kt]);
                        assert forall|s: Seq<int>| admits(b0, s) implies admits(self@, s) by {
                            assert(admits(prev, s));
                            assert(cell_admits(prev[t as int], s[t as int]));
                            lemma_naked_sound_target(b0, s, gmi, mmi, kt);
                            assert(!vals@.contains(s[t as int]));
                            assert(p2@.contains(s[t as int]));
                            assert forall|x: int| 0 <= x < 81 implies cell_admits(
                                #[trigger] self@[x],
                                s[x],
                            ) by {
                                if x != t as int {
                                    assert(self@[x] == prev[x]);
                                }
                            }
                        }
                        assert(p2@.len() < pt@.len()) by {
                            vstd::set_lib::lemma_len_subset(p2@, pt@);
                            if p2@.len() == pt@.len() {
                                crate::digits::lemma_subset_same_len(p2@, pt@);
                            }
                        }
                        if changed {
                            lemma_refines_weight(prev, self@);
                        } else {
                            assert(prev == start);
                            assert(is_open(start[t as int]));
                            lemma_refines_weight_lt(start, self@, t as int);
                            if start == b0 {
                                assert(!naked_noop(b0)) by {
                                    if naked_noop(b0) {
                                        assert(msk_naked(b0, gmi, mmi));
                                        assert(msk_removal_empty(b0, gmi, mmi));
                                        assert(is_open(b0[group_seq(gmi)[kt]]));
                                        assert(open_set(b0[group_seq(gmi)[kt]]).disjoint(
                                            msk_union(b0, gmi, mmi),
                                        ));
                                        assert(open_set(b0[t as int]).contains(dd));
                                        assert(false);
                                    }
                                }
                            }
                        }
                    }
                    changed = true;
                } else {
                    proof {
                        if !changed && start == b0 {
                            assert(self@ == b0);
                            assert forall|dd: int|
                                open_set(b0[t as int]).contains(dd) implies !vals@.contains(
                                dd,
                            ) by {
                                assert(pt@.contains(dd));
                                assert(p2@.contains(dd));
                            }
                        }
                    }
                }
            }
            q = q + 1;
        }
        proof {
            if changed {
                lemma_refines_weight(start, self@);
            }
        }
        changed
    }

    /// Naked subsets of sizes two to four: in every row, column and block,
    /// wherever some two to four open cells together list exactly as many
    /// digits as there are cells, those digits are removed from every other
    /// cell of the group. All removals are computed over the board as it
    /// stood at entry and applied after the full scan. Reports whether at
    /// least one naked subset was recorded.
    pub fn naked_pairs(&mut self) -> (r: bool)
        requires
            old(self).wf(),
        ensures
            final(self).wf(),
            refines(final(self)@, old(self)@),
            sound_step(old(self)@, final(self)@),
            weight(final(self)@) <= weight(old(self)@),
            r == (exists|gi: int, m: int| msk_naked(old(self)@, gi, m)),
            (final(self)@ == old(self)@) <==> naked_noop(old(self)@),
            !naked_noop(old(self)@) ==> weight(final(self)@) < weight(old(self)@),
            !r ==> final(self)@ == old(self)@,
    {
        let ghost b0 = self@;
        let mut recs: Vec<NakedElim> = Vec::new();
        let mut gi: usize = 0;
        proof {
            lemma_refines_refl(b0);
        }
        while gi < 27
            invariant
                gi <= 27,
                board_wf(b0),
                self.wf(),
                self@ == b0,
                forall|ri: int| 0 <= ri < recs@.len() ==> record_ok(b0, #[trigger] recs@[ri]),
                forall|g2: int, m2: int|
                    0 <= g2 < gi && #[trigger] msk_naked(b0, g2, m2) ==> recorded(recs@, g2, m2),
            decreases 27 - gi,
        {
            let g = group_indices(gi);
            let mut m: usize = 0;
            while m < 512
                invariant
                    m <= 512,
                    gi < 27,
                    board_wf(b0),
                    self.wf(),
                    self@ == b0,
                    g@.len() == 9,
                    forall|k: int|
                        0 <= k < 9 ==> (#[trigger] g@[k]) < 81 && g@[k] as int == group_seq(
                            gi as int,
                        )[k],
                    forall|ri: int| 0 <= ri < recs@.len() ==> record_ok(b0, #[trigger] recs@[ri]),
                    forall|g2: int, m2: int|
                        0 <= g2 < gi && #[trigger] msk_naked(b0, g2, m2) ==> recorded(
                            recs@,
                            g2,
                            m2,
                        ),
                    forall|m2: int|
                        0 <= m2 < m && #[trigger] msk_naked(b0, gi as int, m2) ==> recorded(
                            recs@,
                            gi as int,
                            m2,
                        ),
                decreases 512 - m,
            {
                let res = self.examine_selection(&g, gi, m);
                let ghost rprev = recs@;
                match res {
                    Some(rec) => {
                        recs.push(rec);
                        proof {
                            assert forall|m2: int|
                                0 <= m2 < m as int + 1 && #[trigger] msk_naked(
                                    b0,
                                    gi as int,
                                    m2,
                                ) implies recorded(recs@, gi as int, m2) by {
                                if m2 < m as int {
                                    let ri = choose|ri: int|
                                        0 <= ri < rprev.len() && (#[trigger] rprev[ri]).grp@
                                            == gi as int && rprev[ri].msk@ == m2;
                                    assert(recs@[ri] == rprev[ri]);
                                } else {
                                    assert((recs@[recs@.len() - 1]).grp@ == gi as int
                                        && recs@[recs@.len() - 1].msk@ == m2);
                                }
                            }
                            assert forall|g2: int, m2: int|
                                0 <= g2 < gi as int && #[trigger] msk_naked(
                                    b0,
                                    g2,
                                    m2,
                                ) implies recorded(recs@, g2, m2) by {
                                let ri = choose|ri: int|
                                    0 <= ri < rprev.len() && (#[trigger] rprev[ri]).grp@ == g2
                                        && rprev[ri].msk@ == m2;
                                assert(recs@[ri] == rprev[ri]);
                            }
                        }
                    },
                    None => {},
                }
                m = m + 1;
            }
            gi = gi + 1;
        }
        let mut changed = false;
        let mut ri: usize = 0;
        let rn = recs.len();
        while ri < rn
            invariant
                ri <= rn,
                rn == recs@.len(),
                board_wf(b0),
                self.wf(),
                refines(self@, b0),
                sound_step(b0, self@),
                forall|r2: int| 0 <= r2 < recs@.len() ==> record_ok(b0, #[trigger] recs@[r2]),
                forall|g2: int, m2: int|
                    0 <= g2 < 27 && #[trigger] msk_naked(b0, g2, m2) ==> recorded(recs@, g2, m2),
                changed ==> weight(self@) < weight(b0) && !naked_noop(b0),
                !changed ==> self@ == b0,
                !changed ==> forall|r2: int|
                    0 <= r2 < ri ==> record_noop(b0, #[trigger] recs@[r2]),
            decreases rn - ri,
        {
            let vals = recs[ri].values;
            let ghost gmi = recs@[ri as int].grp@;
            let ghost mmi = recs@[ri as int].msk@;
            let ghost before = self@;
            let ch = self.apply_record(
                vals,
                &recs[ri].targets,
                Ghost(b0),
                Ghost(gmi),
                Ghost(mmi),
            );
            proof {
                lemma_refines_trans(self@, before, b0);
                if ch {
                    if changed {
                        assert(weight(self@) < weight(b0));
                    } else {
                        assert(before == b0);
                        assert(!naked_noop(b0));
                    }
                } else {
                    assert(self@ == before);
                    if !changed {
                        assert forall|r2: int|
                            0 <= r2 < ri as int + 1 implies record_noop(
                            b0,
                            #[trigger] recs@[r2],
                        ) by {
                            if r2 == ri as int {
                                assert(before == b0);
                                assert(record_noop(b0, recs@[ri as int]));
                            }
                        }
                    }
                }
            }
            if ch {
                changed = true;
            }
            ri = ri + 1;
        }
        proof {
            lemma_refines_weight(b0, self@);
            if !changed {
                assert forall|g2: int, m2: int| #[trigger] msk_naked(b0, g2, m2) implies
                    msk_removal_empty(b0, g2, m2) by {
                    assert(0 <= g2 < 27);
                    assert(recorded(recs@, g2, m2));
                    let r2 = choose|r2: int|
                        0 <= r2 < recs@.len() && (#[trigger] recs@[r2]).grp@ == g2
                            && recs@[r2].msk@ == m2;
                    assert(record_ok(b0, recs@[r2]));
                    assert(record_noop(b0, recs@[r2]));
                    lemma_unsel_props(g2, m2, 9);
                    assert forall|k: int|
                        0 <= k < 9 && !pos_bit(m2, k) && is_open(
                            b0[#[trigger] group_seq(g2)[k]],
                        ) implies open_set(b0[group_seq(g2)[k]]).disjoint(
                        msk_union(b0, g2, m2),
                    ) by {
                        let us = unsel_seq(group_seq(g2), m2, 9);
                        let q = choose|q: int| 0 <= q < us.len() && #[trigger] us[q] == group_seq(
                            g2,
                        )[k];
                        assert(recs@[r2].targets@.map_values(|x: usize| x as int)[q]
                            == recs@[r2].targets@[q] as int);
                        assert((recs@[r2].targets@[q]) as int == group_seq(g2)[k]);
                        assert(is_open(b0[recs@[r2].targets@[q] as int]));
                    }
                }
                assert(naked_noop(b0));
            } else {
                assert(weight(self@) < weight(b0));
                assert(self@ != b0);
            }
            if rn > 0 {
                assert(record_ok(b0, recs@[0]));
                assert(msk_naked(b0, recs@[0].grp@, recs@[0].msk@));
            } else {
                assert forall|g2: int, m2: int| !(#[trigger] msk_naked(b0, g2, m2)) by {
                    if msk_naked(b0, g2, m2) {
                        assert(recorded(recs@, g2, m2));
                    }
                }
            }
        }
        rn > 0
    }

    /// Overwrite one cell, as when staging a position by hand.
    pub fn set_cell(&mut self, i: usize, c: Cell)
        requires
            old(self).wf(),
            i < 81,
            cell_wf(c),
        ensures
            final(self).wf(),
            final(self)@ == old(self)@.update(i as int, c),
    {
        self.cells.set(i, c);
    }

    /// The total number of candidates left over all open cells.
    pub fn count_weight(&self) -> (n: usize)
        requires
            self.wf(),
        ensures
            n == weight(self@),
    {
        let mut n: usize = 0;
        let mut i: usize = 0;
        while i < 81
            invariant
                i <= 81,
                self.wf(),
                n == weight_prefix(self@, i as int),
                n <= 9 * i,
            decreases 81 - i,
        {
            match self.cell_at(i) {
                Cell::Value(_) => {
                    proof {
                        assert(cell_weight(self@[i as int]) == 0);
                    }
                },
                Cell::Possibilities(ds) => {
                    n = n + ds.count();
                },
            }
            i = i + 1;
        }
        n
    }

    /// The fixed-point driver: elimination first, then hidden singles, then
    /// naked subsets, restarting from the top after every pass that changes
    /// the board, until a full round changes nothing. On return no rule can
    /// make further progress.
    pub fn solve(&mut self)
        requires
            old(self).wf(),
        ensures
            final(self).wf(),
            refines(final(self)@, old(self)@),
            sound_step(old(self)@, final(self)@),
            elimination_stuck(final(self)@),
            hidden_stuck(final(self)@),
            naked_noop(final(self)@),
    {
        let ghost b0 = self@;
        proof {
            lemma_refines_refl(b0);
        }
        loop
            invariant_except_break
                self.wf(),
                board_wf(b0),
                refines(self@, b0),
                sound_step(b0, self@),
            ensures
                self.wf(),
                refines(self@, b0),
                sound_step(b0, self@),
                elimination_stuck(self@),
                hidden_stuck(self@),
                naked_noop(self@),
            decreases weight(self@),
        {
            let ghost cur0 = self@;
            let r1 = self.check_solved_cells();
            proof {
                lemma_refines_trans(self@, cur0, b0);
                assert forall|s: Seq<int>| admits(b0, s) implies admits(self@, s) by {
                    assert(admits(cur0, s));
                }
            }
            if r1 {
                continue;
            }
            let ghost cur1 = self@;
            let r2 = self.hidden_single();
            proof {
                lemma_refines_trans(self@, cur1, b0);
                lemma_eliminated_blocks(cur1);
                assert forall|s: Seq<int>| admits(b0, s) implies admits(self@, s) by {
                    assert(admits(cur1, s));
                }
            }
            if r2 {
                continue;
            }
            let ghost cur2 = self@;
            let w0 = self.count_weight();
            let r3 = self.naked_pairs();
            let w1 = self.count_weight();
            proof {
                lemma_refines_trans(self@, cur2, b0);
                assert forall|s: Seq<int>| admits(b0, s) implies admits(self@, s) by {
                    assert(admits(cur2, s));
                }
            }
            if w1 < w0 {
                continue;
            }
            proof {
                assert(weight(self@) == weight(cur2));
                assert(naked_noop(cur2));
                assert(self@ == cur2);
                assert(cur2 == cur1);
                assert(elimination_stuck(self@));
                assert(hidden_stuck(self@));
                assert(naked_noop(self@));
            }
            break;
        }
    }

    /// Whether every cell holds a fixed digit.
    pub fn is_solved(&self) -> (r: bool)
        requires
            self.wf(),
        ensures
            r == forall|i: int| 0 <= i < 81 ==> is_fixed(#[trigger] self@[i]),
    {
        let mut i: usize = 0;
        while i < 81
            invariant
                i <= 81,
                self.wf(),
                forall|t: int| 0 <= t < i ==> is_fixed(#[trigger] self@[t]),
            decreases 81 - i,
        {
            match self.cells[i] {
                Cell::Value(_) => {},
                Cell::Possibilities(_) => {
                    return false;
                },
            }
            i = i + 1;
        }
        true
    }
}

} // verus!

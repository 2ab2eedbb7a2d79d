//! The grid: its cells, its rows, columns and blocks, the digits that may
//! still go into a cell, and the rule that no group holds a digit twice.
//!
//! A grid is modelled as the sequence of its 81 cells in row-major order; the
//! contracts of this module are stated over that sequence.

use vstd::prelude::*;
use crate::cell_set::CellSet;

verus! {

// Cells

/// The content of one position of the grid: empty, or one of the digits 1 to 9.
#[derive(Clone, Copy, Hash, PartialEq, Eq, Debug, Structural)]
pub enum Cell {
    Unset,
    One,
    Two,
    Three,
    Four,
    Five,
    Six,
    Seven,
    Eight,
    Nine,
}

impl Cell {
    /// The number a cell stands for: 0 for an empty cell, otherwise its digit.
    pub open spec fn digit(self) -> int {
        match self {
            Cell::Unset => 0,
            Cell::One => 1,
            Cell::Two => 2,
            Cell::Three => 3,
            Cell::Four => 4,
            Cell::Five => 5,
            Cell::Six => 6,
            Cell::Seven => 7,
            Cell::Eight => 8,
            Cell::Nine => 9,
        }
    }

    /// The cell that stands for the number `n`; the empty cell for any `n` outside 1..=9.
    pub open spec fn of_digit(n: int) -> Cell {
        if n == 1 {
            Cell::One
        } else if n == 2 {
            Cell::Two
        } else if n == 3 {
            Cell::Three
        } else if n == 4 {
            Cell::Four
        } else if n == 5 {
            Cell::Five
        } else if n == 6 {
            Cell::Six
        } else if n == 7 {
            Cell::Seven
        } else if n == 8 {
            Cell::Eight
        } else if n == 9 {
            Cell::Nine
        } else {
            Cell::Unset
        }
    }

    /// Whether the cell holds a digit: what `is_set` computes.
    pub open spec fn holds_digit(self) -> bool {
        self != Cell::Unset
    }

    /// Whether the cell holds a digit.
    pub fn is_set(&self) -> (set: bool)
        ensures
            set == self.holds_digit(),
    {
        *self != Cell::Unset
    }

    /// Converts a number in 0..=9 to the cell that stands for it.
    pub fn from(value: u8) -> (cell: Cell)
        requires
            value <= 9,
        ensures
            cell == Cell::of_digit(value as int),
            cell.digit() == value,
    {
        match value {
            0 => Cell::Unset,
            1 => Cell::One,
            2 => Cell::Two,
            3 => Cell::Three,
            4 => Cell::Four,
            5 => Cell::Five,
            6 => Cell::Six,
            7 => Cell::Seven,
            8 => Cell::Eight,
            9 => Cell::Nine,
            _ => vstd::pervasive::unreached(),
        }
    }

    /// Converts any byte to a cell, refusing the bytes that stand for no cell.
    pub fn from_digit(value: u8) -> (cell: Option<Cell>)
        ensures
            value <= 9 ==> cell == Some(Cell::of_digit(value as int)),
            value > 9 ==> cell is None,
    {
        if value <= 9 {
            Some(Cell::from(value))
        } else {
            None
        }
    }

    /// A cell whose number is `n` is the only cell with that number.
    pub proof fn lemma_digit_is_its_own(self, n: int)
        requires
            self.digit() == n,
        ensures
            forall|other: Cell| other.digit() == n ==> other == self,
    {
    }

    /// Numbers and cells correspond one to one: a cell is found again from its
    /// number, and a number in 0..=9 from its cell.
    pub proof fn lemma_digit_round_trip(self, n: int)
        ensures
            0 <= self.digit() <= 9,
            Cell::of_digit(self.digit()) == self,
            0 <= n <= 9 ==> Cell::of_digit(n).digit() == n,
            self.holds_digit() <==> 1 <= self.digit() <= 9,
    {
    }
}

impl Default for Cell {
    fn default() -> (cell: Cell)
        ensures
            cell == Cell::Unset,
    {
        Cell::Unset
    }
}

impl From<Cell> for u8 {
    fn from(value: Cell) -> (byte: u8) {
        match value {
            Cell::Unset => 0,
            Cell::One => 1,
            Cell::Two => 2,
            Cell::Three => 3,
            Cell::Four => 4,
            Cell::Five => 5,
            Cell::Six => 6,
            Cell::Seven => 7,
            Cell::Eight => 8,
            Cell::Nine => 9,
        }
    }
}

impl vstd::std_specs::convert::FromSpecImpl<Cell> for u8 {
    open spec fn obeys_from_spec() -> bool {
        true
    }

    open spec fn from_spec(value: Cell) -> u8 {
        value.digit() as u8
    }
}

// The grid as a sequence of 81 cells

/// The index of the top left cell of block `b`.
pub open spec fn block_start(b: int) -> int {
    27 * (b / 3) + 3 * (b % 3)
}

/// The block that the cell at `index` lies in.
pub open spec fn block_of(index: int) -> int {
    ((index / 9) / 3) * 3 + (index % 9) / 3
}

/// The nine cells of row `r` of a grid, left to right.
pub open spec fn row_cells(grid: Seq<Cell>, r: int) -> Seq<Cell> {
    Seq::new(9, |k: int| grid[9 * r + k])
}

/// The nine cells of column `c` of a grid, top to bottom.
pub open spec fn column_cells(grid: Seq<Cell>, c: int) -> Seq<Cell> {
    Seq::new(9, |k: int| grid[c + 9 * k])
}

/// The nine cells of block `b` of a grid, row by row.
pub open spec fn block_cells(grid: Seq<Cell>, b: int) -> Seq<Cell> {
    Seq::new(9, |k: int| grid[block_start(b) + 9 * (k / 3) + k % 3])
}

/// Whether `cell` occurs in the row, the column or the block of the cell at `index`.
pub open spec fn seen_from(grid: Seq<Cell>, index: int, cell: Cell) -> bool {
    ||| row_cells(grid, index / 9).contains(cell)
    ||| column_cells(grid, index % 9).contains(cell)
    ||| block_cells(grid, block_of(index)).contains(cell)
}

/// The digits that may still go into the cell at `index`: those that occur
/// neither in its row, nor in its column, nor in its block.
pub open spec fn candidates(grid: Seq<Cell>, index: int) -> Set<Cell> {
    Set::new(|cell: Cell| cell.holds_digit() && !seen_from(grid, index, cell))
}

/// Whether no digit occurs twice among the cells of `group`. Empty cells do not count.
pub open spec fn group_valid(group: Seq<Cell>) -> bool {
    forall|i: int, j: int|
        0 <= i < j < group.len() && group[i].holds_digit() ==> group[i] != group[j]
}

/// Whether row `n`, column `n` and block `n` of a grid each hold no digit twice.
pub open spec fn groups_valid(grid: Seq<Cell>, n: int) -> bool {
    &&& group_valid(row_cells(grid, n))
    &&& group_valid(column_cells(grid, n))
    &&& group_valid(block_cells(grid, n))
}

/// Whether a grid keeps the rules: none of its nine rows, nine columns and
/// nine blocks holds a digit twice.
pub open spec fn grid_valid(grid: Seq<Cell>) -> bool {
    forall|n: int| 0 <= n < 9 ==> #[trigger] groups_valid(grid, n)
}

/// Whether every cell of a grid holds a digit.
pub open spec fn grid_full(grid: Seq<Cell>) -> bool {
    forall|i: int| 0 <= i < grid.len() ==> (#[trigger] grid[i]).holds_digit()
}

/// Whether a grid is a finished Sudoku: it keeps the rules and has no empty cell.
pub open spec fn grid_solved(grid: Seq<Cell>) -> bool {
    grid_valid(grid) && grid_full(grid)
}

/// Whether the cells at `i` and `j` lie in one row, one column or one block.
pub open spec fn share_group(i: int, j: int) -> bool {
    i / 9 == j / 9 || i % 9 == j % 9 || block_of(i) == block_of(j)
}

// The grid

/// A 9×9 grid of cells in row-major order: the cell in row `r` and column `c`
/// has index `9 * r + c`.
pub struct Puzzle {
    cells: [Cell; 81],
}

impl View for Puzzle {
    type V = Seq<Cell>;

    closed spec fn view(&self) -> Seq<Cell> {
        self.cells@
    }
}

impl Puzzle {
    /// A grid always has 81 cells.
    pub broadcast proof fn lemma_len(self)
        ensures
            #[trigger] self@.len() == 81,
    {
    }

    /// Builds a grid from its 81 cells. Nothing is checked: a grid may break the rules.
    pub fn new(cells: [Cell; 81]) -> (puzzle: Puzzle)
        ensures
            puzzle@ == cells@,
    {
        Puzzle { cells }
    }

    /// A copy of the grid in which the cell at `index` is `cell`.
    pub fn set_cell(&self, index: usize, cell: Cell) -> (puzzle: Puzzle)
        requires
            index < 81,
        ensures
            puzzle@ == self@.update(index as int, cell),
            puzzle@[index as int] == cell,
            forall|i: int| 0 <= i < 81 && i != index ==> puzzle@[i] == self@[i],
    {
        let mut cells = self.cells;
        cells[index] = cell;
        Puzzle::new(cells)
    }

    /// The empty cells of the grid with their indices, by ascending index.
    pub fn iter_unset_cells(&self) -> (unset: Vec<(usize, Cell)>)
        ensures
            forall|k: int|
                0 <= k < unset.len() ==> {
                    &&& (#[trigger] unset[k]).0 < 81
                    &&& unset[k].1 == self@[unset[k].0 as int]
                    &&& !unset[k].1.holds_digit()
                },
            forall|j: int, k: int|
                0 <= j < k < unset.len() ==> (#[trigger] unset[j]).0 < (#[trigger] unset[k]).0,
            forall|i: int|
                0 <= i < 81 && !(#[trigger] self@[i]).holds_digit() ==> exists|k: int|
                    0 <= k < unset.len() && (#[trigger] unset[k]).0 == i,
    {
        let mut unset: Vec<(usize, Cell)> = Vec::new();
        for i in 0..81
            invariant
                forall|k: int|
                    0 <= k < unset.len() ==> {
                        &&& (#[trigger] unset[k]).0 < i
                        &&& unset[k].1 == self@[unset[k].0 as int]
                        &&& !unset[k].1.holds_digit()
                    },
                forall|j: int, k: int|
                    0 <= j < k < unset.len() ==> (#[trigger] unset[j]).0 < (#[trigger] unset[k]).0,
                forall|n: int|
                    0 <= n < i && !(#[trigger] self@[n]).holds_digit() ==> exists|k: int|
                        0 <= k < unset.len() && (#[trigger] unset[k]).0 == n,
        {
            let cell = self.cells[i];
            if !cell.is_set() {
                let ghost before = unset@;
                unset.push((i, cell));
                proof {
                    assert forall|n: int|
                        0 <= n < i + 1 && !(#[trigger] self@[n]).holds_digit() implies exists|
                        k: int,
                    | 0 <= k < unset.len() && (#[trigger] unset[k]).0 == n by {
                        if n < i {
                            let k = choose|k: int|
                                0 <= k < before.len() && (#[trigger] before[k]).0 == n;
                            assert(unset[k].0 == n);
                        } else {
                            assert(unset[before.len() as int].0 == n);
                        }
                    }
                }
            }
        }
        unset
    }

    /// Column `index` of the grid, top to bottom.
    pub fn column(&self, index: usize) -> (out: [Cell; 9])
        requires
            index < 9,
        ensures
            out@ == column_cells(self@, index as int),
    {
        let mut out: [Cell; 9] = [Cell::Unset;9];
        for i in 0..9
            invariant
                index < 9,
                forall|k: int| 0 <= k < i ==> out@[k] == self@[index + 9 * k],
        {
            out[i] = self.cells[index + i * 9];
        }
        assert(out@ =~= column_cells(self@, index as int));
        out
    }

    /// Row `index` of the grid, left to right.
    pub fn row(&self, index: usize) -> (out: [Cell; 9])
        requires
            index < 9,
        ensures
            out@ == row_cells(self@, index as int),
    {
        let mut out: [Cell; 9] = [Cell::Unset;9];
        for i in 0..9
            invariant
                index < 9,
                forall|k: int| 0 <= k < i ==> out@[k] == self@[9 * index + k],
        {
            out[i] = self.cells[9 * index + i];
        }
        assert(out@ =~= row_cells(self@, index as int));
        out
    }

    /// Block `index` of the grid, row by row. The blocks are numbered row by
    /// row too: block 0 is the top left one, block 8 the bottom right one.
    pub fn block(&self, index: usize) -> (out: [Cell; 9])
        requires
            index < 9,
        ensures
            out@ == block_cells(self@, index as int),
    {
        // The index of the first cell in the block
        let start_index: usize = 27 * (index / 3) + 3 * (index % 3);
        let mut out: [Cell; 9] = [Cell::Unset;9];
        for i in 0..9
            invariant
                index < 9,
                start_index == block_start(index as int),
                start_index <= 60,
                forall|k: int|
                    0 <= k < i ==> out@[k] == self@[block_start(index as int) + 9 * (k / 3) + k
                        % 3],
        {
            out[i] = self.cells[start_index + 9 * (i / 3) + i % 3];
        }
        assert(out@ =~= block_cells(self@, index as int));
        out
    }

    /// The digits that may still go into the cell at `cell_index`: the digits
    /// 1 to 9 without those that its row, its column or its block already holds.
    /// A digit that the cell itself holds counts as held by its row.
    pub fn possibilities(&self, cell_index: usize) -> (set: CellSet)
        requires
            cell_index < 81,
        ensures
            set@ == candidates(self@, cell_index as int),
            forall|cell: Cell| #[trigger]
                set@.contains(cell) ==> cell.holds_digit() && !seen_from(
                    self@,
                    cell_index as int,
                    cell,
                ),
            forall|cell: Cell|
                cell.holds_digit() ==> #[trigger] set@.contains(cell) || seen_from(
                    self@,
                    cell_index as int,
                    cell,
                ),
            set.well_formed(),
    {
        let row_index = cell_index / 9;
        let column_index = cell_index % 9;
        let block_index = (row_index / 3) * 3 + column_index / 3;

        let mut set = CellSet::new();
        set.insert(Cell::One);
        set.insert(Cell::Two);
        set.insert(Cell::Three);
        set.insert(Cell::Four);
        set.insert(Cell::Five);
        set.insert(Cell::Six);
        set.insert(Cell::Seven);
        set.insert(Cell::Eight);
        set.insert(Cell::Nine);
        let ghost digits = set@;
        assert(forall|cell: Cell| digits.contains(cell) == cell.holds_digit());

        let row = self.row(row_index);
        let column = self.column(column_index);
        let block = self.block(block_index);
        discard(&mut set, &row);
        discard(&mut set, &column);
        discard(&mut set, &block);
        assert(set@ =~= candidates(self@, cell_index as int));
        set
    }

    /// Whether the grid is a finished Sudoku: it keeps the rules and no cell is empty.
    pub fn is_solved(&self) -> (solved: bool)
        ensures
            solved == grid_solved(self@),
    {
        if !self.is_valid() {
            return false;
        }
        for i in 0..81
            invariant
                forall|k: int| 0 <= k < i ==> (#[trigger] self@[k]).holds_digit(),
        {
            if !self.cells[i].is_set() {
                return false;
            }
        }
        true
    }
}

/// Takes every cell of `group` out of `set`.
fn discard(set: &mut CellSet, group: &[Cell; 9])
    ensures
        forall|cell: Cell| #[trigger]
            final(set)@.contains(cell) == (old(set)@.contains(cell) && !group@.contains(cell)),
        old(set).well_formed() ==> final(set).well_formed(),
{
    for i in 0..9
        invariant
            forall|cell: Cell| #[trigger]
                set@.contains(cell) == (old(set)@.contains(cell) && !group@.take(i as int).contains(
                    cell,
                )),
            old(set).well_formed() ==> set.well_formed(),
    {
        set.remove(&group[i]);
        proof {
            assert(group@.take(i + 1) =~= group@.take(i as int).push(group@[i as int]));
            assert forall|cell: Cell|
                group@.take(i + 1).contains(cell) == (group@.take(i as int).contains(cell) || cell
                    == group@[i as int]) by {
                if group@.take(i as int).contains(cell) {
                    let k = choose|k: int|
                        0 <= k < group@.take(i as int).len() && group@.take(i as int)[k] == cell;
                    assert(group@.take(i + 1)[k] == cell);
                }
                if cell == group@[i as int] {
                    assert(group@.take(i + 1)[i as int] == cell);
                }
            }
        }
    }
    assert(group@.take(9) =~= group@);
}

/// A value that can be held to the rule that no digit occurs twice in a group.
pub trait Valid {
    /// What `is_valid` decides.
    spec fn valid(&self) -> bool;

    /// Whether the value keeps the rule.
    fn is_valid(&self) -> (ok: bool)
        ensures
            ok == self.valid(),
    ;
}

impl Valid for [Cell; 9] {
    open spec fn valid(&self) -> bool {
        group_valid(self@)
    }

    /// Scans the group from left to right and fails at the first digit seen before.
    fn is_valid(&self) -> (ok: bool) {
        let mut seen = CellSet::new();
        for i in 0..9
            invariant
                forall|a: int, b: int|
                    0 <= a < b < i && self@[a].holds_digit() ==> self@[a] != self@[b],
                forall|cell: Cell| #[trigger]
                    seen@.contains(cell) <==> cell.holds_digit() && self@.take(i as int).contains(
                        cell,
                    ),
        {
            let cell = self[i];
            if cell.is_set() {
                if seen.contains(&cell) {
                    proof {
                        let a = choose|a: int|
                            0 <= a < self@.take(i as int).len() && self@.take(i as int)[a] == cell;
                        assert(self@[a].holds_digit() && self@[a] == self@[i as int]);
                    }
                    return false;
                }
                seen.insert(cell);
            }
            proof {
                assert forall|a: int| 0 <= a < i && self@[a].holds_digit() implies self@[a]
                    != cell by {
                    assert(self@.take(i as int)[a] == self@[a]);
                    assert(self@.take(i as int).contains(self@[a]));
                }
                assert(self@.take(i + 1) =~= self@.take(i as int).push(cell));
                assert forall|other: Cell| #[trigger]
                    seen@.contains(other) <==> other.holds_digit() && self@.take(i + 1).contains(
                        other,
                    ) by {
                    if self@.take(i as int).contains(other) {
                        let a = choose|a: int|
                            0 <= a < self@.take(i as int).len() && self@.take(i as int)[a] == other;
                        assert(self@.take(i + 1)[a] == other);
                    }
                    if other == cell {
                        assert(self@.take(i + 1)[i as int] == other);
                    }
                }
            }
        }
        true
    }
}

impl Valid for Puzzle {
    open spec fn valid(&self) -> bool {
        grid_valid(self@)
    }

    /// Checks row, column and block `n` for `n` from 0 to 8.
    fn is_valid(&self) -> (ok: bool) {
        for i in 0..9
            invariant
                forall|n: int| 0 <= n < i ==> #[trigger] groups_valid(self@, n),
        {
            if !self.row(i).is_valid() {
                assert(!groups_valid(self@, i as int));
                return false;
            }
            if !self.column(i).is_valid() {
                assert(!groups_valid(self@, i as int));
                return false;
            }
            if !self.block(i).is_valid() {
                assert(!groups_valid(self@, i as int));
                return false;
            }
        }
        true
    }
}

// Laws

/// The cell at `index` is found in its row at the place of its column, in
/// its column at the place of its row, and in its block at the place that its
/// row and column have within the block.
pub proof fn lemma_cell_in_its_groups(grid: Seq<Cell>, index: int)
    requires
        grid.len() == 81,
        0 <= index < 81,
    ensures
        row_cells(grid, index / 9)[index % 9] == grid[index],
        column_cells(grid, index % 9)[index / 9] == grid[index],
        block_cells(grid, block_of(index))[3 * ((index / 9) % 3) + (index % 9) % 3] == grid[index],
        0 <= block_of(index) < 9,
{
    let r = index / 9;
    let c = index % 9;
    let b = block_of(index);
    let place = 3 * (r % 3) + c % 3;
    assert(b / 3 == r / 3 && b % 3 == c / 3);
    assert(place / 3 == r % 3 && place % 3 == c % 3);
    assert(block_start(b) + 9 * (place / 3) + place % 3 == index);
}

/// Two different places of a group without a repeated digit hold different
/// cells, where the first of them holds a digit.
pub proof fn lemma_places_differ(group: Seq<Cell>, p: int, q: int)
    requires
        group_valid(group),
        0 <= p < group.len(),
        0 <= q < group.len(),
        p != q,
        group[p].holds_digit(),
    ensures
        group[p] != group[q],
{
    if p < q {
        assert(group[p] != group[q]);
    } else {
        if group[q].holds_digit() {
            assert(group[q] != group[p]);
        }
    }
}

/// A grid in which two cells of one row, one column or one block hold the
/// same digit breaks the rules, however many of its cells are filled.
pub proof fn lemma_repeated_digit_breaks_rules(grid: Seq<Cell>, i: int, j: int)
    requires
        grid.len() == 81,
        0 <= i < 81,
        0 <= j < 81,
        i != j,
        share_group(i, j),
        grid[i].holds_digit(),
        grid[i] == grid[j],
    ensures
        !grid_valid(grid),
        !grid_solved(grid),
{
    lemma_cell_in_its_groups(grid, i);
    lemma_cell_in_its_groups(grid, j);
    if grid_valid(grid) {
        if i / 9 == j / 9 {
            let row = row_cells(grid, i / 9);
            assert(groups_valid(grid, i / 9));
            lemma_places_differ(row, i % 9, j % 9);
        } else if i % 9 == j % 9 {
            let column = column_cells(grid, i % 9);
            assert(groups_valid(grid, i % 9));
            lemma_places_differ(column, i / 9, j / 9);
        } else {
            let block = block_cells(grid, block_of(i));
            assert(groups_valid(grid, block_of(i)));
            lemma_places_differ(
                block,
                3 * ((i / 9) % 3) + (i % 9) % 3,
                3 * ((j / 9) % 3) + (j % 9) % 3,
            );
        }
    }
}

} // verus!

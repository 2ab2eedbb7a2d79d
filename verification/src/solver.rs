//! The search: fills a grid by trying, for the most constrained empty cells
//! first, each digit that may go into a cell, and backing out of dead ends.

use vstd::prelude::*;
use vstd::string::*;
use crate::cell_set::CellSet;
use crate::puzzle::{
    candidates, grid_full, grid_solved, grid_valid, groups_valid, group_valid, block_cells,
    block_of, column_cells, lemma_cell_in_its_groups, lemma_places_differ, row_cells, seen_from,
    Cell, Puzzle, Valid,
};
use crate::sort::merge_sort;

verus! {

// Errors

/// Why a grid was not solved.
pub enum SolverError {
    /// The row with this number holds a digit twice.
    InvalidRow(usize),
    /// The column with this number holds a digit twice.
    InvalidColumn(usize),
    /// The block with this number holds a digit twice.
    InvalidBlock(usize),
    /// The search found no way to fill this grid.
    DeadEnd(Puzzle),
}

impl SolverError {
    /// The description of the error: for a group that breaks the rules its
    /// kind and its number, for a dead end a fixed sentence.
    pub open spec fn message(self) -> Seq<char> {
        match self {
            SolverError::InvalidRow(index) => "Row "@ + decimal(index as nat)
                + " of the puzzle is not valid!"@,
            SolverError::InvalidColumn(index) => "Column "@ + decimal(index as nat)
                + " of the puzzle is not valid!"@,
            SolverError::InvalidBlock(index) => "Block "@ + decimal(index as nat)
                + " of the puzzle is not valid!"@,
            SolverError::DeadEnd(_) =>
                "Solver reached a dead end (this should not be a user-facing error)"@,
        }
    }

    /// A description of the error for a person to read.
    pub fn to_string(&self) -> (text: String)
        ensures
            text@ == self.message(),
    {
        match self {
            SolverError::InvalidRow(index) => group_message("Row ", *index),
            SolverError::InvalidColumn(index) => group_message("Column ", *index),
            SolverError::InvalidBlock(index) => group_message("Block ", *index),
            SolverError::DeadEnd(_) => String::from_str(
                "Solver reached a dead end (this should not be a user-facing error)",
            ),
        }
    }
}

/// The numeral for a number below ten.
pub open spec fn digit_text(d: nat) -> Seq<char> {
    if d == 0 {
        "0"@
    } else if d == 1 {
        "1"@
    } else if d == 2 {
        "2"@
    } else if d == 3 {
        "3"@
    } else if d == 4 {
        "4"@
    } else if d == 5 {
        "5"@
    } else if d == 6 {
        "6"@
    } else if d == 7 {
        "7"@
    } else if d == 8 {
        "8"@
    } else {
        "9"@
    }
}

/// A number written in decimal, without leading zeros.
pub open spec fn decimal(n: nat) -> Seq<char>
    decreases n,
{
    if n < 10 {
        digit_text(n)
    } else {
        decimal(n / 10) + digit_text(n % 10)
    }
}

/// The sentence that names a group that breaks the rules.
fn group_message(kind: &str, index: usize) -> (text: String)
    ensures
        text@ == kind@ + decimal(index as nat) + " of the puzzle is not valid!"@,
{
    let mut text = String::from_str(kind);
    append_decimal(&mut text, index);
    text.append(" of the puzzle is not valid!");
    text
}

/// Writes `n` in decimal at the end of `text`.
fn append_decimal(text: &mut String, n: usize)
    ensures
        final(text)@ == old(text)@ + decimal(n as nat),
    decreases n,
{
    if n >= 10 {
        append_decimal(text, n / 10);
    }
    let digit = match n % 10 {
        0 => "0",
        1 => "1",
        2 => "2",
        3 => "3",
        4 => "4",
        5 => "5",
        6 => "6",
        7 => "7",
        8 => "8",
        _ => "9",
    };
    text.append(digit);
    assert(final(text)@ =~= old(text)@ + decimal(n as nat));
}

// What it means to solve a grid

/// Whether `solution` has a cell for each cell of `grid` and the same digit
/// wherever `grid` holds one.
pub open spec fn extends(solution: Seq<Cell>, grid: Seq<Cell>) -> bool {
    &&& solution.len() == grid.len()
    &&& forall|i: int|
        0 <= i < grid.len() && (#[trigger] grid[i]).holds_digit() ==> solution[i] == grid[i]
}

/// Whether `solution` is a finished Sudoku that keeps every digit of `grid`.
pub open spec fn is_solution_of(solution: Seq<Cell>, grid: Seq<Cell>) -> bool {
    grid_solved(solution) && extends(solution, grid)
}

/// Whether `grid` can be filled to a finished Sudoku.
pub open spec fn solvable(grid: Seq<Cell>) -> bool {
    exists|solution: Seq<Cell>| is_solution_of(solution, grid)
}

/// The number of empty cells of a grid.
pub open spec fn unset_count(grid: Seq<Cell>) -> nat
    decreases grid.len(),
{
    if grid.len() == 0 {
        0
    } else {
        unset_count(grid.drop_last()) + if grid.last().holds_digit() {
            0nat
        } else {
            1nat
        }
    }
}

/// Whether `cell` may go into the empty cell at `index` of a grid.
pub open spec fn is_attempt(grid: Seq<Cell>, index: int, cell: Cell) -> bool {
    &&& 0 <= index < grid.len()
    &&& !grid[index].holds_digit()
    &&& candidates(grid, index).contains(cell)
}

/// Whether the search writes `cell` into the cell at `index` before it writes
/// `other_cell` into the cell at `other`: cells with fewer candidates come
/// first, then cells with a lower index, then lower digits.
pub open spec fn tried_before(
    grid: Seq<Cell>,
    index: int,
    cell: Cell,
    other: int,
    other_cell: Cell,
) -> bool {
    let n = candidates(grid, index).len();
    let m = candidates(grid, other).len();
    n < m || (n == m && (index < other || (index == other && cell.digit() < other_cell.digit())))
}

/// Whether writing `cell` into the cell at `index` is the first step of the
/// search that leads to a finished grid.
pub open spec fn is_first_step(grid: Seq<Cell>, index: int, cell: Cell) -> bool {
    &&& is_attempt(grid, index, cell)
    &&& solvable(grid.update(index, cell))
    &&& forall|other: int, other_cell: Cell|
        #[trigger] is_attempt(grid, other, other_cell) && solvable(grid.update(other, other_cell))
            ==> (other == index && other_cell == cell) || tried_before(
            grid,
            index,
            cell,
            other,
            other_cell,
        )
}

/// The finished grid that the search arrives at from a grid that can be
/// filled: the grid itself where it is finished, and otherwise what the search
/// arrives at after the first step that leads anywhere.
pub open spec fn first_solution(grid: Seq<Cell>) -> Seq<Cell>
    decreases unset_count(grid),
{
    if grid_solved(grid) {
        grid
    } else {
        let (index, cell) = choose|index: int, cell: Cell| is_first_step(grid, index, cell);
        if is_first_step(grid, index, cell) {
            proof {
                lemma_filling_lowers_unset_count(grid, index, cell);
            }
            first_solution(grid.update(index, cell))
        } else {
            grid
        }
    }
}

// The functions

/// Holds a grid to the rules, as a caller may do before a search: looks at
/// row, column and block `n` for `n` from 0 to 8, in that order, and reports
/// the first group that holds a digit twice.
pub fn validate(puzzle: &Puzzle) -> (result: Result<(), SolverError>)
    ensures
        result is Ok <==> grid_valid(puzzle@),
        match result {
            Ok(_) => true,
            Err(SolverError::InvalidRow(n)) => {
                &&& n < 9
                &&& forall|m: int| 0 <= m < n ==> #[trigger] groups_valid(puzzle@, m)
                &&& !group_valid(row_cells(puzzle@, n as int))
            },
            Err(SolverError::InvalidColumn(n)) => {
                &&& n < 9
                &&& forall|m: int| 0 <= m < n ==> #[trigger] groups_valid(puzzle@, m)
                &&& group_valid(row_cells(puzzle@, n as int))
                &&& !group_valid(column_cells(puzzle@, n as int))
            },
            Err(SolverError::InvalidBlock(n)) => {
                &&& n < 9
                &&& forall|m: int| 0 <= m < n ==> #[trigger] groups_valid(puzzle@, m)
                &&& group_valid(row_cells(puzzle@, n as int))
                &&& group_valid(column_cells(puzzle@, n as int))
                &&& !group_valid(block_cells(puzzle@, n as int))
            },
            Err(SolverError::DeadEnd(_)) => false,
        },
{
    for i in 0..9
        invariant
            forall|m: int| 0 <= m < i ==> #[trigger] groups_valid(puzzle@, m),
    {
        if !puzzle.row(i).is_valid() {
            assert(!groups_valid(puzzle@, i as int));
            return Err(SolverError::InvalidRow(i));
        }
        if !puzzle.column(i).is_valid() {
            assert(!groups_valid(puzzle@, i as int));
            return Err(SolverError::InvalidColumn(i));
        }
        if !puzzle.block(i).is_valid() {
            assert(!groups_valid(puzzle@, i as int));
            return Err(SolverError::InvalidBlock(i));
        }
    }
    Ok(())
}

/// Fills the empty cells of `puzzle` so that the grid becomes a finished Sudoku,
/// by depth-first search with backtracking.
///
/// A finished grid is handed back as it is. Otherwise the empty cells are
/// ranked by the number of their candidates, fewest first, and in that order
/// each candidate of each cell, lowest digit first, is written into the grid
/// and the search goes on from there; the first finished grid that is found is
/// the result. Where every attempt fails, the error is `DeadEnd` with the grid
/// as it was given.
#[verifier::loop_isolation(false)]
pub fn solve_sudoku(puzzle: Puzzle) -> (result: Result<Puzzle, SolverError>)
    ensures
        match result {
            Ok(solved) => is_solution_of(solved@, puzzle@) && solved@ == first_solution(puzzle@),
            Err(error) => error == SolverError::DeadEnd(puzzle) && !solvable(puzzle@),
        },
        grid_solved(puzzle@) ==> (result matches Ok(solved) && solved == puzzle),
        forall|solution: Seq<Cell>|
            is_solution_of(solution, puzzle@) && (forall|other: Seq<Cell>| #[trigger]
                is_solution_of(other, puzzle@) ==> other == solution) ==> (result matches Ok(solved)
                && solved@ == solution),
    decreases unset_count(puzzle@),
{
    proof {
        puzzle.lemma_len();
    }
    if puzzle.is_solved() {
        assert(is_solution_of(puzzle@, puzzle@));
        return Ok(puzzle);
    }
    // Each empty cell with the set of all valid values of the cell, from most
    // constrained to least constrained
    let all_possibilities = ranked_choices(&puzzle);

    // Iterate through all the valid board states
    for n in 0..all_possibilities.len()
        invariant
            forall|m: int| 0 <= m < n ==> #[trigger] all_possibilities[m].fails_below(puzzle@, 10),
    {
        let choice = all_possibilities[n];
        let cell_index = choice.cell_index;
        assert(is_choice_of(puzzle@, choice));
        let mut digit: u8 = 1;
        while digit <= 9
            invariant
                1 <= digit <= 10,
                choice.fails_below(puzzle@, digit as int),
            decreases 10 - digit,
        {
            let possibility = Cell::from(digit);
            if choice.digits.contains(&possibility) {
                let new_puzzle = puzzle.set_cell(cell_index, possibility);
                proof {
                    lemma_filling_lowers_unset_count(puzzle@, cell_index as int, possibility);
                }
                // Recursively solve the new puzzle
                match solve_sudoku(new_puzzle) {
                    Ok(solved_puzzle) => {
                        proof {
                            lemma_solution_of_filled_grid(
                                puzzle@,
                                cell_index as int,
                                possibility,
                                solved_puzzle@,
                            );
                            lemma_search_takes_first_step(
                                puzzle@,
                                all_possibilities@,
                                n as int,
                                possibility,
                            );
                        }
                        return Ok(solved_puzzle);
                    },
                    Err(SolverError::DeadEnd(_)) => {},
                    // The search reports no other failure.
                    Err(_) => vstd::pervasive::unreached(),
                }
            }
            proof {
                possibility.lemma_digit_is_its_own(digit as int);
            }
            digit += 1;
        }
    }
    proof {
        lemma_search_is_exhaustive(puzzle@, all_possibilities@);
    }
    Err(SolverError::DeadEnd(puzzle))
}

/// An empty cell of a grid and the digits that may go into it.
#[derive(Clone, Copy)]
struct Choice {
    cell_index: usize,
    digits: CellSet,
}

impl Choice {
    /// Whether fewer digits may go into this cell than into the other.
    spec fn has_fewer_digits(self, other: Choice) -> bool {
        self.digits@.len() < other.digits@.len()
    }

    /// Whether no digit below `bound` that may go into this cell of `grid`
    /// leads to a finished grid.
    spec fn fails_below(self, grid: Seq<Cell>, bound: int) -> bool {
        forall|cell: Cell|
            cell.digit() < bound && self.digits@.contains(cell) ==> !solvable(
                #[trigger] grid.update(self.cell_index as int, cell),
            )
    }

    /// Whether this cell is tried before the other: it has fewer candidates,
    /// or as many and the lower index.
    spec fn ranks_before(self, other: Choice) -> bool {
        self.digits@.len() < other.digits@.len() || (self.digits@.len() == other.digits@.len()
            && self.cell_index < other.cell_index)
    }
}

/// Whether `choice` names an empty cell of `grid` together with its candidates.
spec fn is_choice_of(grid: Seq<Cell>, choice: Choice) -> bool {
    &&& choice.cell_index < 81
    &&& !grid[choice.cell_index as int].holds_digit()
    &&& choice.digits@ == candidates(grid, choice.cell_index as int)
}

/// The empty cells of `puzzle` with their candidates, most constrained first:
/// the cells with the fewest candidates lead, and cells with equally many
/// follow each other by ascending index.
fn ranked_choices(puzzle: &Puzzle) -> (choices: Vec<Choice>)
    ensures
        are_ranked_choices_of(puzzle@, choices@),
{
    let unset = puzzle.iter_unset_cells();
    let mut all_possibilities: Vec<Choice> = Vec::new();
    for k in 0..unset.len()
        invariant
            all_possibilities.len() == k,
            forall|m: int| 0 <= m < unset.len() ==> (#[trigger] unset[m]).0 < 81,
            forall|m: int|
                0 <= m < k ==> {
                    &&& (#[trigger] all_possibilities[m]).cell_index == unset[m].0
                    &&& all_possibilities[m].digits@ == candidates(puzzle@, unset[m].0 as int)
                },
    {
        let (cell_index, _cell) = unset[k];
        all_possibilities.push(Choice { cell_index, digits: puzzle.possibilities(cell_index) });
    }

    let fewer_digits = |a: &Choice, b: &Choice| -> (fewer: bool)
        ensures
            fewer == a.has_fewer_digits(*b),
        { a.digits.len() < b.digits.len() };
    let sorted = merge_sort(all_possibilities.as_slice(), &fewer_digits);
    proof {
        let unsorted = all_possibilities@;
        let fewer = |x: Choice, y: Choice| x.has_fewer_digits(y);
        let lower_index = |x: Choice, y: Choice| x.cell_index < y.cell_index;
        assert(crate::sort::clone_is_exact::<Choice>());
        assert(crate::sort::answers_to(&fewer_digits, fewer));
        assert(crate::sort::strict_weak_order(fewer));
        crate::sort::lemma_sort_is_stable(&fewer_digits, fewer, lower_index, unsorted, sorted@);
        assert forall|m: int, n: int|
            0 <= m < n < sorted.len() implies (#[trigger] sorted[m]).ranks_before(
            #[trigger] sorted[n],
        ) by {
            assert(crate::sort::precedes(fewer, lower_index, sorted[m], sorted[n]));
        }
        sorted@.to_multiset_ensures();
        unsorted.to_multiset_ensures();
        assert forall|n: int| 0 <= n < sorted.len() implies is_choice_of(
            puzzle@,
            #[trigger] sorted[n],
        ) by {
            assert(sorted@.contains(sorted[n]));
            assert(unsorted.to_multiset().count(sorted[n]) > 0);
            let m = choose|m: int| 0 <= m < unsorted.len() && unsorted[m] == sorted[n];
            assert(unset[m].0 < 81);
        }
        assert forall|index: int|
            0 <= index < 81 && !(#[trigger] puzzle@[index]).holds_digit() implies exists|n: int|
            0 <= n < sorted.len() && (#[trigger] sorted[n]).cell_index == index by {
            let k = choose|k: int| 0 <= k < unset.len() && (#[trigger] unset[k]).0 == index;
            assert(unsorted.contains(unsorted[k]));
            assert(sorted@.to_multiset().count(unsorted[k]) > 0);
            let n = choose|n: int| 0 <= n < sorted.len() && sorted[n] == unsorted[k];
            assert(sorted[n].cell_index == index);
        }
    }
    sorted
}

/// Whether `choices` are the empty cells of `grid` with their candidates, in
/// the order of the search.
spec fn are_ranked_choices_of(grid: Seq<Cell>, choices: Seq<Choice>) -> bool {
    &&& forall|n: int| 0 <= n < choices.len() ==> is_choice_of(grid, #[trigger] choices[n])
    &&& forall|index: int|
        0 <= index < 81 && !(#[trigger] grid[index]).holds_digit() ==> exists|n: int|
            0 <= n < choices.len() && (#[trigger] choices[n]).cell_index == index
    &&& forall|m: int, n: int|
        0 <= m < n < choices.len() ==> (#[trigger] choices[m]).ranks_before(#[trigger] choices[n])
}

/// Where the search succeeds with `cell` in the cell of `choices[n]` after
/// everything that it tried before has failed, that is the first step that
/// leads to a finished grid.
proof fn lemma_search_takes_first_step(grid: Seq<Cell>, choices: Seq<Choice>, n: int, cell: Cell)
    requires
        grid.len() == 81,
        are_ranked_choices_of(grid, choices),
        0 <= n < choices.len(),
        forall|m: int| 0 <= m < n ==> #[trigger] choices[m].fails_below(grid, 10),
        choices[n].fails_below(grid, cell.digit()),
        choices[n].digits@.contains(cell),
        solvable(grid.update(choices[n].cell_index as int, cell)),
    ensures
        is_first_step(grid, choices[n].cell_index as int, cell),
        first_solution(grid) == first_solution(grid.update(choices[n].cell_index as int, cell)),
{
    let index = choices[n].cell_index as int;
    assert(is_choice_of(grid, choices[n]));
    assert forall|other: int, other_cell: Cell|
        #[trigger] is_attempt(grid, other, other_cell) && solvable(
            grid.update(other, other_cell),
        ) implies (other == index && other_cell == cell) || tried_before(
        grid,
        index,
        cell,
        other,
        other_cell,
    ) by {
        let m = choose|m: int|
            0 <= m < choices.len() && (#[trigger] choices[m]).cell_index == other;
        assert(is_choice_of(grid, choices[m]));
        other_cell.lemma_digit_round_trip(0);
        cell.lemma_digit_round_trip(0);
        if n < m {
            assert(choices[n].ranks_before(choices[m]));
        } else if m < n {
            assert(choices[m].fails_below(grid, 10));
        }
    }
    assert(is_first_step(grid, index, cell));
    let (first_index, first_cell) = choose|index: int, cell: Cell| is_first_step(grid, index, cell);
    lemma_first_step_is_unique(grid, index, cell, first_index, first_cell);
    if grid_solved(grid) {
        assert(grid[index].holds_digit());
    }
}

/// Where every attempt of the search has failed, the grid cannot be filled.
proof fn lemma_search_is_exhaustive(grid: Seq<Cell>, choices: Seq<Choice>)
    requires
        grid.len() == 81,
        !grid_solved(grid),
        are_ranked_choices_of(grid, choices),
        forall|m: int| 0 <= m < choices.len() ==> #[trigger] choices[m].fails_below(grid, 10),
    ensures
        !solvable(grid),
{
    if solvable(grid) {
        let solution = choose|solution: Seq<Cell>| is_solution_of(solution, grid);
        if grid_full(grid) {
            assert(solution =~= grid);
        }
        let index = choose|index: int| 0 <= index < 81 && !(#[trigger] grid[index]).holds_digit();
        let n = choose|n: int|
            0 <= n < choices.len() && (#[trigger] choices[n]).cell_index == index;
        assert(is_choice_of(grid, choices[n]));
        assert(choices[n].fails_below(grid, 10));
        lemma_solution_picks_candidate(grid, solution, index);
        solution[index].lemma_digit_round_trip(0);
        assert(solvable(grid.update(index, solution[index])));
    }
}

// Laws

/// Writing a digit into an empty cell leaves one empty cell less.
pub proof fn lemma_filling_lowers_unset_count(grid: Seq<Cell>, index: int, cell: Cell)
    requires
        0 <= index < grid.len(),
        !grid[index].holds_digit(),
        cell.holds_digit(),
    ensures
        unset_count(grid.update(index, cell)) + 1 == unset_count(grid),
    decreases grid.len(),
{
    let filled = grid.update(index, cell);
    if index == grid.len() - 1 {
        assert(filled.drop_last() =~= grid.drop_last());
    } else {
        assert(filled.drop_last() =~= grid.drop_last().update(index, cell));
        lemma_filling_lowers_unset_count(grid.drop_last(), index, cell);
    }
}

/// A solution of a grid holds, in each empty cell of the grid, one of that
/// cell's candidates, and it is still a solution once that digit is written
/// into the cell.
pub proof fn lemma_solution_picks_candidate(grid: Seq<Cell>, solution: Seq<Cell>, index: int)
    requires
        grid.len() == 81,
        is_solution_of(solution, grid),
        0 <= index < 81,
        !grid[index].holds_digit(),
    ensures
        candidates(grid, index).contains(solution[index]),
        is_solution_of(solution, grid.update(index, solution[index])),
{
    let cell = solution[index];
    let r = index / 9;
    let c = index % 9;
    let b = block_of(index);
    let place = 3 * (r % 3) + c % 3;
    assert(cell.holds_digit());
    lemma_cell_in_its_groups(solution, index);
    lemma_cell_in_its_groups(grid, index);
    assert(groups_valid(solution, r));
    assert(groups_valid(solution, c));
    assert(groups_valid(solution, b));
    if row_cells(grid, r).contains(cell) {
        let k = choose|k: int| 0 <= k < 9 && row_cells(grid, r)[k] == cell;
        assert(grid[9 * r + k].holds_digit());
        assert(row_cells(solution, r)[k] == cell);
        lemma_places_differ(row_cells(solution, r), k, c);
    }
    if column_cells(grid, c).contains(cell) {
        let k = choose|k: int| 0 <= k < 9 && column_cells(grid, c)[k] == cell;
        assert(grid[c + 9 * k].holds_digit());
        assert(column_cells(solution, c)[k] == cell);
        lemma_places_differ(column_cells(solution, c), k, r);
    }
    if block_cells(grid, b).contains(cell) {
        let k = choose|k: int| 0 <= k < 9 && block_cells(grid, b)[k] == cell;
        let j = crate::puzzle::block_start(b) + 9 * (k / 3) + k % 3;
        assert(0 <= j < 81);
        assert(grid[j].holds_digit());
        assert(block_cells(solution, b)[k] == cell);
        lemma_places_differ(block_cells(solution, b), k, place);
    }
    assert(!seen_from(grid, index, cell));
}

/// A solution of a grid in which an empty cell was filled is a solution of
/// the grid itself.
pub proof fn lemma_solution_of_filled_grid(
    grid: Seq<Cell>,
    index: int,
    cell: Cell,
    solution: Seq<Cell>,
)
    requires
        0 <= index < grid.len(),
        !grid[index].holds_digit(),
        is_solution_of(solution, grid.update(index, cell)),
    ensures
        is_solution_of(solution, grid),
{
    let filled = grid.update(index, cell);
    assert forall|i: int|
        0 <= i < grid.len() && (#[trigger] grid[i]).holds_digit() implies solution[i]
        == grid[i] by {
        assert(filled[i].holds_digit());
    }
}

/// The first step that leads to a finished grid is the only one of its kind.
pub proof fn lemma_first_step_is_unique(
    grid: Seq<Cell>,
    index: int,
    cell: Cell,
    other: int,
    other_cell: Cell,
)
    requires
        is_first_step(grid, index, cell),
        is_first_step(grid, other, other_cell),
    ensures
        index == other,
        cell == other_cell,
{
    assert(is_attempt(grid, other, other_cell));
    assert(is_attempt(grid, index, cell));
    if !(other == index && other_cell == cell) {
        assert(tried_before(grid, index, cell, other, other_cell));
        assert(tried_before(grid, other, other_cell, index, cell));
    }
}

} // verus!

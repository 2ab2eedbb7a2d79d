use sudoku::cell_set::CellSet;
use sudoku::puzzle::{Cell, Puzzle, Valid};

const CLASSIC: [u8; 81] = [
    5, 3, 0, 0, 7, 0, 0, 0, 0,
    6, 0, 0, 1, 9, 5, 0, 0, 0,
    0, 9, 8, 0, 0, 0, 0, 6, 0,
    8, 0, 0, 0, 6, 0, 0, 0, 3,
    4, 0, 0, 8, 0, 3, 0, 0, 1,
    7, 0, 0, 0, 2, 0, 0, 0, 6,
    0, 6, 0, 0, 0, 0, 2, 8, 0,
    0, 0, 0, 4, 1, 9, 0, 0, 5,
    0, 0, 0, 0, 8, 0, 0, 7, 9,
];

const CLASSIC_SOLVED: [u8; 81] = [
    5, 3, 4, 6, 7, 8, 9, 1, 2,
    6, 7, 2, 1, 9, 5, 3, 4, 8,
    1, 9, 8, 3, 4, 2, 5, 6, 7,
    8, 5, 9, 7, 6, 1, 4, 2, 3,
    4, 2, 6, 8, 5, 3, 7, 9, 1,
    7, 1, 3, 9, 2, 4, 8, 5, 6,
    9, 6, 1, 5, 3, 7, 2, 8, 4,
    2, 8, 7, 4, 1, 9, 6, 3, 5,
    3, 4, 5, 2, 8, 6, 1, 7, 9,
];

fn puzzle_of(numbers: &[u8; 81]) -> Puzzle {
    let mut grid: [Cell; 81] = [Cell::Unset; 81];
    for (i, n) in numbers.iter().enumerate() {
        grid[i] = Cell::from(*n);
    }
    Puzzle::new(grid)
}

fn numbers_of(puzzle: &Puzzle) -> Vec<u8> {
    let mut numbers = Vec::new();
    for r in 0..9 {
        for cell in puzzle.row(r) {
            numbers.push(u8::from(cell));
        }
    }
    numbers
}

fn group_of(numbers: [u8; 9]) -> [Cell; 9] {
    let mut group = [Cell::Unset; 9];
    for (i, n) in numbers.iter().enumerate() {
        group[i] = Cell::from(*n);
    }
    group
}

fn set_of(numbers: &[u8]) -> CellSet {
    let mut set = CellSet::new();
    for n in numbers {
        set.insert(Cell::from(*n));
    }
    set
}

#[test]
fn test_group_is_valid() {
    let group: [Cell; 9] = [
        Cell::One,
        Cell::Two,
        Cell::Three,
        Cell::Four,
        Cell::Five,
        Cell::Six,
        Cell::Seven,
        Cell::Eight,
        Cell::Nine,
    ];

    assert!(group.is_valid());

    let group: [Cell; 9] = [
        Cell::One,
        Cell::Two,
        Cell::Unset,
        Cell::Four,
        Cell::Unset,
        Cell::Six,
        Cell::Seven,
        Cell::Eight,
        Cell::Unset,
    ];
    assert!(group.is_valid());

    let group: [Cell; 9] = [
        Cell::Eight,
        Cell::Two,
        Cell::Unset,
        Cell::Nine,
        Cell::Six,
        Cell::Unset,
        Cell::Unset,
        Cell::Seven,
        Cell::Four,
    ];
    assert!(group.is_valid());

    let group: [Cell; 9] = [
        Cell::Eight,
        Cell::Two,
        Cell::Seven,
        Cell::Nine,
        Cell::Six,
        Cell::Unset,
        Cell::Unset,
        Cell::Seven,
        Cell::Four,
    ];
    assert!(!group.is_valid());
}

#[test]
fn test_puzzle_is_valid() {
    let mut grid: [Cell; 81] = [Cell::Unset; 81];

    [
        5, 3, 0, 0, 7, 0, 0, 0, 0,
        6, 0, 0, 1, 9, 5, 0, 0, 0,
        0, 9, 8, 0, 0, 0, 0, 6, 0,
        8, 0, 0, 0, 6, 0, 0, 0, 3,
        4, 0, 0, 8, 0, 3, 0, 0, 1,
        7, 0, 0, 0, 2, 0, 0, 0, 6,
        0, 6, 0, 0, 0, 0, 2, 8, 0,
        0, 0, 0, 4, 1, 9, 0, 0, 5,
        0, 0, 0, 0, 8, 0, 0, 7, 9
    ]
        .iter()
        .map(|c| Cell::from(*c))
        .enumerate()
        .for_each(|(i, c)| grid[i] = c);

    let puzzle = Puzzle::new(grid);

    assert_eq!(
        puzzle.row(0),
        [
            Cell::Five, Cell::Three, Cell::Unset,
            Cell::Unset, Cell::Seven, Cell::Unset,
            Cell::Unset, Cell::Unset, Cell::Unset,
        ]
    );

    assert_eq!(
        puzzle.block(4),
        [
            Cell::Unset, Cell::Six, Cell::Unset,
            Cell::Eight, Cell::Unset, Cell::Three,
            Cell::Unset, Cell::Two, Cell::Unset,
        ]
    );

    assert_eq!(
        puzzle.column(8),
        [
            Cell::Unset, Cell::Unset, Cell::Unset,
            Cell::Three, Cell::One, Cell::Six,
            Cell::Unset, Cell::Five, Cell::Nine,
        ]
    );

    assert_eq!(
        puzzle.row(5),
        [
            Cell::Seven, Cell::Unset, Cell::Unset,
            Cell::Unset, Cell::Two, Cell::Unset,
            Cell::Unset, Cell::Unset, Cell::Six,
        ]
    );

    assert_eq!(
        puzzle.column(5),
        [
            Cell::Unset, Cell::Five, Cell::Unset,
            Cell::Unset, Cell::Three, Cell::Unset,
            Cell::Unset, Cell::Nine, Cell::Unset,
        ]
    );

    let mut set: CellSet = CellSet::new();
    set.insert(Cell::One);
    set.insert(Cell::Four);
    assert_eq!(puzzle.possibilities(50), set,);

    assert!(puzzle.is_valid());
}

#[test]
fn cell_numbers_round_trip() {
    let cells = [
        Cell::Unset,
        Cell::One,
        Cell::Two,
        Cell::Three,
        Cell::Four,
        Cell::Five,
        Cell::Six,
        Cell::Seven,
        Cell::Eight,
        Cell::Nine,
    ];
    for n in 0u8..=9 {
        assert_eq!(Cell::from(n), cells[n as usize]);
        assert_eq!(u8::from(cells[n as usize]), n);
        assert_eq!(Cell::from_digit(n), Some(cells[n as usize]));
    }
}

#[test]
fn cell_from_digit_refuses_large_numbers() {
    assert_eq!(Cell::from_digit(10), None);
    assert_eq!(Cell::from_digit(255), None);
}

#[test]
fn cell_default_is_unset() {
    assert_eq!(Cell::default(), Cell::Unset);
    assert!(!Cell::default().is_set());
}

#[test]
fn cell_is_set_for_digits_only() {
    assert!(!Cell::Unset.is_set());
    for n in 1u8..=9 {
        assert!(Cell::from(n).is_set());
    }
}

#[test]
fn rows_columns_blocks_follow_index_formulas() {
    let puzzle = puzzle_of(&CLASSIC_SOLVED);
    for n in 0..9usize {
        let row = puzzle.row(n);
        let column = puzzle.column(n);
        let block = puzzle.block(n);
        for k in 0..9usize {
            assert_eq!(u8::from(row[k]), CLASSIC_SOLVED[9 * n + k]);
            assert_eq!(u8::from(column[k]), CLASSIC_SOLVED[n + 9 * k]);
            let start = 27 * (n / 3) + 3 * (n % 3);
            assert_eq!(u8::from(block[k]), CLASSIC_SOLVED[start + 9 * (k / 3) + k % 3]);
        }
    }
}

#[test]
fn block_of_a_cell_is_row_third_times_three_plus_column_third() {
    let puzzle = puzzle_of(&CLASSIC_SOLVED);
    for index in 0..81usize {
        let (row, column) = (index / 9, index % 9);
        let block = puzzle.block((row / 3) * 3 + column / 3);
        let place = 3 * (row % 3) + column % 3;
        assert_eq!(u8::from(block[place]), CLASSIC_SOLVED[index]);
    }
}

#[test]
fn classic_rows_and_columns() {
    let puzzle = puzzle_of(&CLASSIC);
    assert_eq!(puzzle.row(0), group_of([5, 3, 0, 0, 7, 0, 0, 0, 0]));
    assert_eq!(puzzle.column(8), group_of([0, 0, 0, 3, 1, 6, 0, 5, 9]));
    assert_eq!(puzzle.block(0), group_of([5, 3, 0, 6, 0, 0, 0, 9, 8]));
    assert_eq!(puzzle.block(8), group_of([2, 8, 0, 0, 0, 5, 0, 7, 9]));
}

#[test]
fn possibilities_of_classic_cell_50() {
    let puzzle = puzzle_of(&CLASSIC);
    let set = puzzle.possibilities(50);
    assert_eq!(set, set_of(&[1, 4]));
    assert_eq!(set.len(), 2);
}

#[test]
fn possibilities_avoid_row_column_and_block() {
    let puzzle = puzzle_of(&CLASSIC);
    for index in 0..81usize {
        let set = puzzle.possibilities(index);
        let row = puzzle.row(index / 9);
        let column = puzzle.column(index % 9);
        let block = puzzle.block((index / 27) * 3 + (index % 9) / 3);
        for n in 1u8..=9 {
            let cell = Cell::from(n);
            let seen = row.contains(&cell) || column.contains(&cell) || block.contains(&cell);
            assert_eq!(set.contains(&cell), !seen);
        }
        assert!(!set.contains(&Cell::Unset));
    }
}

#[test]
fn possibilities_of_a_set_cell_leave_out_its_own_digit() {
    let puzzle = puzzle_of(&CLASSIC);
    let set = puzzle.possibilities(0);
    assert!(!set.contains(&Cell::Five));
    assert_eq!(set, set_of(&[1, 2]));
}

#[test]
fn possibilities_of_an_empty_grid_are_all_digits() {
    let puzzle = Puzzle::new([Cell::Unset; 81]);
    let set = puzzle.possibilities(40);
    assert_eq!(set.len(), 9);
    assert_eq!(set, set_of(&[1, 2, 3, 4, 5, 6, 7, 8, 9]));
}

#[test]
fn set_cell_leaves_its_own_grid_untouched() {
    let puzzle = puzzle_of(&CLASSIC);
    let changed = puzzle.set_cell(2, Cell::Four);
    assert_eq!(numbers_of(&puzzle), CLASSIC.to_vec());
    let mut expected = CLASSIC.to_vec();
    expected[2] = 4;
    assert_eq!(numbers_of(&changed), expected);
}

#[test]
fn set_cell_reaches_first_and_last_cell() {
    let puzzle = Puzzle::new([Cell::Unset; 81]);
    let first = puzzle.set_cell(0, Cell::Nine);
    let last = puzzle.set_cell(80, Cell::One);
    assert_eq!(first.row(0)[0], Cell::Nine);
    assert_eq!(last.row(8)[8], Cell::One);
    assert_eq!(last.row(0)[0], Cell::Unset);
}

#[test]
fn unset_cells_come_in_ascending_order() {
    let puzzle = puzzle_of(&CLASSIC);
    let unset = puzzle.iter_unset_cells();
    let expected: Vec<(usize, Cell)> = (0..81usize)
        .filter(|i| CLASSIC[*i] == 0)
        .map(|i| (i, Cell::Unset))
        .collect();
    assert_eq!(unset.len(), 51);
    assert_eq!(unset, expected);
}

#[test]
fn unset_cells_of_a_full_grid_are_none() {
    let puzzle = puzzle_of(&CLASSIC_SOLVED);
    assert!(puzzle.iter_unset_cells().is_empty());
}

#[test]
fn solved_grid_is_valid_and_solved() {
    let puzzle = puzzle_of(&CLASSIC_SOLVED);
    assert!(puzzle.is_valid());
    assert!(puzzle.is_solved());
}

#[test]
fn valid_grid_with_empty_cells_is_not_solved() {
    let puzzle = puzzle_of(&CLASSIC);
    assert!(puzzle.is_valid());
    assert!(!puzzle.is_solved());
    let almost = puzzle_of(&CLASSIC_SOLVED).set_cell(80, Cell::Unset);
    assert!(almost.is_valid());
    assert!(!almost.is_solved());
}

#[test]
fn repeated_digit_in_a_row_is_neither_valid_nor_solved() {
    let partial = puzzle_of(&CLASSIC).set_cell(2, Cell::Five);
    assert!(!partial.is_valid());
    assert!(!partial.is_solved());
    let full = puzzle_of(&CLASSIC_SOLVED).set_cell(2, Cell::Five);
    assert!(!full.is_valid());
    assert!(!full.is_solved());
}

#[test]
fn repeated_digit_in_a_column_or_block_is_not_valid() {
    let empty = Puzzle::new([Cell::Unset; 81]);
    let column = empty.set_cell(4, Cell::Three).set_cell(76, Cell::Three);
    assert!(!column.is_valid());
    let block = empty.set_cell(30, Cell::Three).set_cell(49, Cell::Three);
    assert!(!block.is_valid());
    let apart = empty.set_cell(0, Cell::Three).set_cell(40, Cell::Three);
    assert!(apart.is_valid());
}

#[test]
fn group_with_repeated_empty_cells_is_valid() {
    assert!(group_of([0; 9]).is_valid());
    assert!(!group_of([0, 0, 0, 0, 0, 0, 0, 1, 1]).is_valid());
    assert!(!group_of([9, 0, 0, 0, 0, 0, 0, 0, 9]).is_valid());
}

#[test]
fn cell_set_insert_remove_contains_len() {
    let mut set = CellSet::new();
    assert_eq!(set.len(), 0);
    assert!(set.insert(Cell::Three));
    assert!(!set.insert(Cell::Three));
    assert!(set.insert(Cell::Unset));
    assert!(set.insert(Cell::Nine));
    assert_eq!(set.len(), 3);
    assert!(set.contains(&Cell::Three));
    assert!(set.contains(&Cell::Unset));
    assert!(!set.contains(&Cell::Four));
    assert!(set.remove(&Cell::Three));
    assert!(!set.remove(&Cell::Three));
    assert!(!set.contains(&Cell::Three));
    assert_eq!(set.len(), 2);
}

#[test]
fn cell_sets_compare_by_members() {
    let a = set_of(&[1, 4, 9]);
    let mut b = set_of(&[9, 4]);
    assert_ne!(a, b);
    b.insert(Cell::One);
    assert_eq!(a, b);
    b.insert(Cell::Two);
    b.remove(&Cell::Two);
    assert_eq!(a, b);
}

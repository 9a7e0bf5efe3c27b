use udos::conway::{Cell, GameOfLife, Grid};

fn collect_neighbours(grid: &Grid<Cell>, row: usize, col: usize) -> Vec<(usize, usize)> {
    let mut out: Vec<(usize, usize)> = Vec::new();
    let mut it = grid.neighbours(row, col);
    while let Some(p) = it.next() {
        out.push(p);
    }
    out
}

fn alive_cells(grid: &Grid<Cell>) -> Vec<(usize, usize)> {
    let (rows, cols) = grid.size();
    let mut out: Vec<(usize, usize)> = Vec::new();
    for r in 0..rows {
        for c in 0..cols {
            if *grid.get(r, c) == Cell::Alive {
                out.push((r, c));
            }
        }
    }
    out
}

fn grid_of(alive: &[(usize, usize)], rows: usize, cols: usize) -> Grid<Cell> {
    let mut grid = Grid::<Cell>::new(rows, cols);
    for &(r, c) in alive {
        grid.set(Cell::Alive, r, c);
    }
    grid
}

#[test]
fn new_grid_has_requested_size_and_default_cells() {
    let grid = Grid::<Cell>::new(3, 2);
    assert_eq!(grid.size(), (3, 2));
    for r in 0..3 {
        for c in 0..2 {
            assert_eq!(*grid.get(r, c), Cell::Dead);
        }
    }
    let empty = Grid::<Cell>::new(0, 5);
    assert_eq!(empty.size(), (0, 5));
}

#[test]
fn new_grid_of_integers_is_zeroed() {
    let grid = Grid::<u32>::new(2, 2);
    for r in 0..2 {
        for c in 0..2 {
            assert_eq!(*grid.get(r, c), 0);
        }
    }
}

#[test]
fn from_slice_keeps_row_major_data() {
    let data = [
        Cell::Alive,
        Cell::Dead,
        Cell::Dead,
        Cell::Alive,
        Cell::Alive,
        Cell::Dead,
    ];
    let grid = Grid::from_slice(&data, 2, 3);
    assert_eq!(grid.size(), (2, 3));
    assert_eq!(*grid.get(0, 0), Cell::Alive);
    assert_eq!(*grid.get(0, 1), Cell::Dead);
    assert_eq!(*grid.get(0, 2), Cell::Dead);
    assert_eq!(*grid.get(1, 0), Cell::Alive);
    assert_eq!(*grid.get(1, 1), Cell::Alive);
    assert_eq!(*grid.get(1, 2), Cell::Dead);
}

#[test]
fn set_overwrites_one_cell_in_place() {
    let mut grid = Grid::<Cell>::new(2, 2);
    grid.set(Cell::Alive, 1, 0);
    assert_eq!(*grid.get(1, 0), Cell::Alive);
    assert_eq!(*grid.get(0, 0), Cell::Dead);
    assert_eq!(*grid.get(0, 1), Cell::Dead);
    assert_eq!(*grid.get(1, 1), Cell::Dead);
    grid.set(Cell::Dead, 1, 0);
    assert_eq!(*grid.get(1, 0), Cell::Dead);
}

#[test]
fn neighbours_of_interior_cell_are_the_eight_around_it() {
    let grid = Grid::<Cell>::new(3, 3);
    let mut got = collect_neighbours(&grid, 1, 1);
    got.sort();
    let expected = vec![
        (0, 0),
        (0, 1),
        (0, 2),
        (1, 0),
        (1, 2),
        (2, 0),
        (2, 1),
        (2, 2),
    ];
    assert_eq!(got, expected);
}

#[test]
fn neighbours_of_corner_cell_are_three() {
    let grid = Grid::<Cell>::new(3, 3);
    let mut got = collect_neighbours(&grid, 0, 0);
    got.sort();
    assert_eq!(got, vec![(0, 1), (1, 0), (1, 1)]);
    let mut far = collect_neighbours(&grid, 2, 2);
    far.sort();
    assert_eq!(far, vec![(1, 1), (1, 2), (2, 1)]);
}

#[test]
fn neighbours_of_edge_cell_are_five() {
    let grid = Grid::<Cell>::new(3, 3);
    let mut got = collect_neighbours(&grid, 0, 1);
    got.sort();
    assert_eq!(got, vec![(0, 0), (0, 2), (1, 0), (1, 1), (1, 2)]);
}

#[test]
fn neighbours_in_single_cell_grid_are_none() {
    let grid = Grid::<Cell>::new(1, 1);
    assert!(collect_neighbours(&grid, 0, 0).is_empty());
}

#[test]
fn neighbours_has_no_duplicates_and_stays_in_bounds() {
    let grid = Grid::<Cell>::new(4, 5);
    for r in 0..4 {
        for c in 0..5 {
            let mut got = collect_neighbours(&grid, r, c);
            got.sort();
            for pair in got.windows(2) {
                assert!(pair[0] != pair[1]);
            }
            for &(nr, nc) in &got {
                assert!(nr < 4 && nc < 5);
                let dr = nr as i64 - r as i64;
                let dc = nc as i64 - c as i64;
                assert!(dr.abs() <= 1 && dc.abs() <= 1);
                assert!(!(dr == 0 && dc == 0));
            }
        }
    }
}

#[test]
fn block_still_life_is_unchanged_by_step() {
    let block = [(1, 1), (1, 2), (2, 1), (2, 2)];
    let mut game = GameOfLife::from_grid(grid_of(&block, 4, 4));
    game.step();
    assert_eq!(alive_cells(game.get_grid()), block.to_vec());
    game.step();
    assert_eq!(alive_cells(game.get_grid()), block.to_vec());
}

#[test]
fn blinker_oscillates_with_period_two() {
    let vertical = [(0, 1), (1, 1), (2, 1)];
    let horizontal = [(1, 0), (1, 1), (1, 2)];
    let mut game = GameOfLife::from_grid(grid_of(&vertical, 3, 3));
    game.step();
    assert_eq!(alive_cells(game.get_grid()), horizontal.to_vec());
    game.step();
    assert_eq!(alive_cells(game.get_grid()), vertical.to_vec());
}

#[test]
fn empty_grid_stays_empty() {
    let mut game = GameOfLife::from_grid(Grid::<Cell>::new(5, 4));
    for _ in 0..6 {
        game.step();
        assert!(alive_cells(game.get_grid()).is_empty());
    }
}

#[test]
fn lone_cell_dies_of_underpopulation() {
    let mut game = GameOfLife::from_grid(grid_of(&[(1, 1)], 3, 3));
    game.step();
    assert!(alive_cells(game.get_grid()).is_empty());
}

#[test]
fn pair_of_cells_dies_of_underpopulation() {
    let mut game = GameOfLife::from_grid(grid_of(&[(1, 1), (1, 2)], 3, 4));
    game.step();
    assert!(alive_cells(game.get_grid()).is_empty());
}

#[test]
fn step_is_a_function_of_the_grid_contents() {
    let pattern = [(0, 1), (1, 1), (2, 1), (2, 2)];
    let mut first = GameOfLife::from_grid(grid_of(&pattern, 4, 4));
    let mut data = vec![Cell::Dead; 16];
    for &(r, c) in &pattern {
        data[r * 4 + c] = Cell::Alive;
    }
    let mut second = GameOfLife::from_grid(Grid::from_slice(&data, 4, 4));
    first.step();
    second.step();
    assert!(first == second);
    assert_eq!(
        alive_cells(first.get_grid()),
        alive_cells(second.get_grid())
    );
}

#[test]
fn get_grid_reads_back_the_owned_grid() {
    let grid = grid_of(&[(0, 0)], 2, 2);
    let copy = grid.clone();
    let game = GameOfLife::from_grid(grid);
    assert!(*game.get_grid() == copy);
}

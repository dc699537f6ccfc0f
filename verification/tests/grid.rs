use hashlife::cell::Cell;
use hashlife::grid::Grid;

#[test]
fn new_grid_is_empty() {
    let grid = Grid::new();
    assert_eq!(grid.len(), 0);
    assert!(!grid.contains(Cell::new(0, 0)));
    assert!(grid.to_vec().is_empty());
}

#[test]
fn insert_adds_a_cell_once() {
    let mut grid = Grid::new();
    assert!(grid.insert(Cell::new(1, 2)));
    assert_eq!(grid.len(), 1);
    assert!(grid.contains(Cell::new(1, 2)));
    assert!(!grid.contains(Cell::new(2, 1)));
    assert!(!grid.insert(Cell::new(1, 2)));
    assert_eq!(grid.len(), 1);
    assert!(grid.insert(Cell::new(2, 1)));
    assert!(grid.insert(Cell::new(-1, 2)));
    assert!(!grid.insert(Cell::new(2, 1)));
    assert_eq!(grid.len(), 3);
    assert_eq!(grid.to_vec(), vec![Cell::new(1, 2), Cell::new(2, 1), Cell::new(-1, 2)]);
    assert_eq!(grid.get(0), Cell::new(1, 2));
    assert_eq!(grid.get(2), Cell::new(-1, 2));
}

#[test]
fn from_cells_drops_repeats_and_keeps_the_order() {
    let cells = vec![
        Cell::new(3, 3),
        Cell::new(1, 1),
        Cell::new(3, 3),
        Cell::new(2, 2),
        Cell::new(1, 1),
        Cell::new(3, 3),
    ];
    let grid = Grid::from_cells(&cells);
    assert_eq!(grid.len(), 3);
    assert_eq!(grid.to_vec(), vec![Cell::new(3, 3), Cell::new(1, 1), Cell::new(2, 2)]);
    for c in cells.iter() {
        assert!(grid.contains(*c));
    }
    assert!(!grid.contains(Cell::new(3, 1)));
    assert_eq!(Grid::from_cells(&Vec::new()).len(), 0);
}

#[test]
fn grid_tells_cells_apart_by_both_coordinates() {
    let mut grid = Grid::new();
    assert!(grid.insert(Cell::new(1, 2)));
    assert!(grid.insert(Cell::new(2, 1)));
    assert!(grid.insert(Cell::new(1, -2)));
    assert!(grid.insert(Cell::new(-1, 2)));
    assert_eq!(grid.len(), 4);
}

use navicust::grid::{Cell, Grid, GridSettings, PlaceError, Position};
use navicust::mask::Mask;

#[test]
fn test_grid_place() {
    let mut grid = Grid::new(&GridSettings {
        height: 7,
        width: 7,
        has_oob: false,
        command_line_row: 3,
    });
    let super_armor = Mask::new(
        (7, 7),
        vec![
            true, false, false, false, false, false, false,
            true, true, false, false, false, false, false,
            true, false, false, false, false, false, false,
            false, false, false, false, false, false, false,
            false, false, false, false, false, false, false,
            false, false, false, false, false, false, false,
            false, false, false, false, false, false, false,
        ],
    )
    .unwrap();
    assert!(grid.place(&super_armor, Position { x: 0, y: 0 }, 0).is_ok());
    let expected_repr: Vec<Vec<Cell>> = vec![
        vec![Cell::Placed(0), Cell::Empty, Cell::Empty, Cell::Empty, Cell::Empty, Cell::Empty, Cell::Empty],
        vec![Cell::Placed(0), Cell::Placed(0), Cell::Empty, Cell::Empty, Cell::Empty, Cell::Empty, Cell::Empty],
        vec![Cell::Placed(0), Cell::Empty, Cell::Empty, Cell::Empty, Cell::Empty, Cell::Empty, Cell::Empty],
        vec![Cell::Empty, Cell::Empty, Cell::Empty, Cell::Empty, Cell::Empty, Cell::Empty, Cell::Empty],
        vec![Cell::Empty, Cell::Empty, Cell::Empty, Cell::Empty, Cell::Empty, Cell::Empty, Cell::Empty],
        vec![Cell::Empty, Cell::Empty, Cell::Empty, Cell::Empty, Cell::Empty, Cell::Empty, Cell::Empty],
        vec![Cell::Empty, Cell::Empty, Cell::Empty, Cell::Empty, Cell::Empty, Cell::Empty, Cell::Empty],
    ];
    assert_eq!(grid.rows(), expected_repr);
}
#[test]
fn test_grid_place_error_source_clipped_does_not_mutate() {
    let mut grid = Grid::new(&GridSettings {
        height: 7,
        width: 7,
        has_oob: false,
        command_line_row: 3,
    });
    let super_armor = Mask::new(
        (7, 7),
        vec![
            true, false, false, false, false, false, false,
            true, true, false, false, false, false, false,
            true, false, false, false, false, false, false,
            false, false, false, false, false, false, false,
            false, false, false, false, false, false, false,
            false, false, false, false, false, false, false,
            false, false, false, false, false, false, false,
        ],
    )
    .unwrap();
    assert_eq!(grid.place(&super_armor, Position { x: -1, y: 0 }, 0), Err(PlaceError::SourceClipped));
    let expected_repr: Vec<Vec<Cell>> = vec![
        vec![Cell::Empty, Cell::Empty, Cell::Empty, Cell::Empty, Cell::Empty, Cell::Empty, Cell::Empty],
        vec![Cell::Empty, Cell::Empty, Cell::Empty, Cell::Empty, Cell::Empty, Cell::Empty, Cell::Empty],
        vec![Cell::Empty, Cell::Empty, Cell::Empty, Cell::Empty, Cell::Empty, Cell::Empty, Cell::Empty],
        vec![Cell::Empty, Cell::Empty, Cell::Empty, Cell::Empty, Cell::Empty, Cell::Empty, Cell::Empty],
        vec![Cell::Empty, Cell::Empty, Cell::Empty, Cell::Empty, Cell::Empty, Cell::Empty, Cell::Empty],
        vec![Cell::Empty, Cell::Empty, Cell::Empty, Cell::Empty, Cell::Empty, Cell::Empty, Cell::Empty],
        vec![Cell::Empty, Cell::Empty, Cell::Empty, Cell::Empty, Cell::Empty, Cell::Empty, Cell::Empty],
    ];
    assert_eq!(grid.rows(), expected_repr);
}
#[test]
fn test_grid_place_error_destination_clobbered_does_not_mutate() {
    let mut grid = Grid::new(&GridSettings {
        height: 7,
        width: 7,
        has_oob: true,
        command_line_row: 3,
    });
    let super_armor = Mask::new(
        (7, 7),
        vec![
            true, false, false, false, false, false, false,
            true, true, false, false, false, false, false,
            true, false, false, false, false, false, false,
            false, false, false, false, false, false, false,
            false, false, false, false, false, false, false,
            false, false, false, false, false, false, false,
            false, false, false, false, false, false, false,
        ],
    )
    .unwrap();
    assert_eq!(grid.place(&super_armor, Position { x: 0, y: 0 }, 0), Err(PlaceError::DestinationClobbered));
    let expected_repr: Vec<Vec<Cell>> = vec![
        vec![Cell::Forbidden, Cell::Empty, Cell::Empty, Cell::Empty, Cell::Empty, Cell::Empty, Cell::Forbidden],
        vec![Cell::Empty, Cell::Empty, Cell::Empty, Cell::Empty, Cell::Empty, Cell::Empty, Cell::Empty],
        vec![Cell::Empty, Cell::Empty, Cell::Empty, Cell::Empty, Cell::Empty, Cell::Empty, Cell::Empty],
        vec![Cell::Empty, Cell::Empty, Cell::Empty, Cell::Empty, Cell::Empty, Cell::Empty, Cell::Empty],
        vec![Cell::Empty, Cell::Empty, Cell::Empty, Cell::Empty, Cell::Empty, Cell::Empty, Cell::Empty],
        vec![Cell::Empty, Cell::Empty, Cell::Empty, Cell::Empty, Cell::Empty, Cell::Empty, Cell::Empty],
        vec![Cell::Forbidden, Cell::Empty, Cell::Empty, Cell::Empty, Cell::Empty, Cell::Empty, Cell::Forbidden],
    ];
    assert_eq!(grid.rows(), expected_repr);
}
#[test]
fn test_grid_place_oob() {
    let mut grid = Grid::new(&GridSettings {
        height: 7,
        width: 7,
        has_oob: true,
        command_line_row: 3,
    });
    let super_armor = Mask::new(
        (7, 7),
        vec![
            true, false, false, false, false, false, false,
            true, true, false, false, false, false, false,
            true, false, false, false, false, false, false,
            false, false, false, false, false, false, false,
            false, false, false, false, false, false, false,
            false, false, false, false, false, false, false,
            false, false, false, false, false, false, false,
        ],
    )
    .unwrap();
    assert!(grid.place(&super_armor, Position { x: 1, y: 0 }, 0).is_ok());
    let expected_repr: Vec<Vec<Cell>> = vec![
        vec![Cell::Forbidden, Cell::Placed(0), Cell::Empty, Cell::Empty, Cell::Empty, Cell::Empty, Cell::Forbidden],
        vec![Cell::Empty, Cell::Placed(0), Cell::Placed(0), Cell::Empty, Cell::Empty, Cell::Empty, Cell::Empty],
        vec![Cell::Empty, Cell::Placed(0), Cell::Empty, Cell::Empty, Cell::Empty, Cell::Empty, Cell::Empty],
        vec![Cell::Empty, Cell::Empty, Cell::Empty, Cell::Empty, Cell::Empty, Cell::Empty, Cell::Empty],
        vec![Cell::Empty, Cell::Empty, Cell::Empty, Cell::Empty, Cell::Empty, Cell::Empty, Cell::Empty],
        vec![Cell::Empty, Cell::Empty, Cell::Empty, Cell::Empty, Cell::Empty, Cell::Empty, Cell::Empty],
        vec![Cell::Forbidden, Cell::Empty, Cell::Empty, Cell::Empty, Cell::Empty, Cell::Empty, Cell::Forbidden],
    ];
    assert_eq!(grid.rows(), expected_repr);
}
#[test]
fn test_grid_place_forbidden() {
    let mut grid = Grid::new(&GridSettings {
        height: 7,
        width: 7,
        has_oob: true,
        command_line_row: 3,
    });
    let super_armor = Mask::new(
        (7, 7),
        vec![
            true, false, false, false, false, false, false,
            true, true, false, false, false, false, false,
            true, false, false, false, false, false, false,
            false, false, false, false, false, false, false,
            false, false, false, false, false, false, false,
            false, false, false, false, false, false, false,
            false, false, false, false, false, false, false,
        ],
    )
    .unwrap();
    assert_eq!(grid.place(&super_armor, Position { x: 0, y: 0 }, 0), Err(PlaceError::DestinationClobbered));
}
#[test]
fn test_grid_place_nonzero_pos() {
    let mut grid = Grid::new(&GridSettings {
        height: 7,
        width: 7,
        has_oob: false,
        command_line_row: 3,
    });
    let super_armor = Mask::new(
        (7, 7),
        vec![
            true, false, false, false, false, false, false,
            true, true, false, false, false, false, false,
            true, false, false, false, false, false, false,
            false, false, false, false, false, false, false,
            false, false, false, false, false, false, false,
            false, false, false, false, false, false, false,
            false, false, false, false, false, false, false,
        ],
    )
    .unwrap();
    assert!(grid.place(&super_armor, Position { x: 1, y: 0 }, 0).is_ok());
    let expected_repr: Vec<Vec<Cell>> = vec![
        vec![Cell::Empty, Cell::Placed(0), Cell::Empty, Cell::Empty, Cell::Empty, Cell::Empty, Cell::Empty],
        vec![Cell::Empty, Cell::Placed(0), Cell::Placed(0), Cell::Empty, Cell::Empty, Cell::Empty, Cell::Empty],
        vec![Cell::Empty, Cell::Placed(0), Cell::Empty, Cell::Empty, Cell::Empty, Cell::Empty, Cell::Empty],
        vec![Cell::Empty, Cell::Empty, Cell::Empty, Cell::Empty, Cell::Empty, Cell::Empty, Cell::Empty],
        vec![Cell::Empty, Cell::Empty, Cell::Empty, Cell::Empty, Cell::Empty, Cell::Empty, Cell::Empty],
        vec![Cell::Empty, Cell::Empty, Cell::Empty, Cell::Empty, Cell::Empty, Cell::Empty, Cell::Empty],
        vec![Cell::Empty, Cell::Empty, Cell::Empty, Cell::Empty, Cell::Empty, Cell::Empty, Cell::Empty],
    ];
    assert_eq!(grid.rows(), expected_repr);
}
#[test]
fn test_grid_place_neg_pos() {
    let mut grid = Grid::new(&GridSettings {
        height: 7,
        width: 7,
        has_oob: false,
        command_line_row: 3,
    });
    let super_armor = Mask::new(
        (7, 7),
        vec![
            false, true, false, false, false, false, false,
            false, true, true, false, false, false, false,
            false, true, false, false, false, false, false,
            false, false, false, false, false, false, false,
            false, false, false, false, false, false, false,
            false, false, false, false, false, false, false,
            false, false, false, false, false, false, false,
        ],
    )
    .unwrap();
    assert!(grid.place(&super_armor, Position { x: -1, y: 0 }, 0).is_ok());
    let expected_repr: Vec<Vec<Cell>> = vec![
        vec![Cell::Placed(0), Cell::Empty, Cell::Empty, Cell::Empty, Cell::Empty, Cell::Empty, Cell::Empty],
        vec![Cell::Placed(0), Cell::Placed(0), Cell::Empty, Cell::Empty, Cell::Empty, Cell::Empty, Cell::Empty],
        vec![Cell::Placed(0), Cell::Empty, Cell::Empty, Cell::Empty, Cell::Empty, Cell::Empty, Cell::Empty],
        vec![Cell::Empty, Cell::Empty, Cell::Empty, Cell::Empty, Cell::Empty, Cell::Empty, Cell::Empty],
        vec![Cell::Empty, Cell::Empty, Cell::Empty, Cell::Empty, Cell::Empty, Cell::Empty, Cell::Empty],
        vec![Cell::Empty, Cell::Empty, Cell::Empty, Cell::Empty, Cell::Empty, Cell::Empty, Cell::Empty],
        vec![Cell::Empty, Cell::Empty, Cell::Empty, Cell::Empty, Cell::Empty, Cell::Empty, Cell::Empty],
    ];
    assert_eq!(grid.rows(), expected_repr);
}
#[test]
fn test_grid_place_source_clipped() {
    let mut grid = Grid::new(&GridSettings {
        height: 7,
        width: 7,
        has_oob: false,
        command_line_row: 3,
    });
    let super_armor = Mask::new(
        (7, 7),
        vec![
            true, false, false, false, false, false, false,
            true, true, false, false, false, false, false,
            true, false, false, false, false, false, false,
            false, false, false, false, false, false, false,
            false, false, false, false, false, false, false,
            false, false, false, false, false, false, false,
            false, false, false, false, false, false, false,
        ],
    )
    .unwrap();
    assert_eq!(grid.place(&super_armor, Position { x: -1, y: 1 }, 0), Err(PlaceError::SourceClipped));
}
#[test]
fn test_grid_place_source_clipped_other_side() {
    let mut grid = Grid::new(&GridSettings {
        height: 7,
        width: 7,
        has_oob: false,
        command_line_row: 3,
    });
    let super_armor = Mask::new(
        (7, 7),
        vec![
            true, false, false, false, false, false, false,
            true, true, false, false, false, false, false,
            true, false, false, false, false, false, false,
            false, false, false, false, false, false, false,
            false, false, false, false, false, false, false,
            false, false, false, false, false, false, false,
            false, false, false, false, false, false, false,
        ],
    )
    .unwrap();
    assert_eq!(grid.place(&super_armor, Position { x: 6, y: 0 }, 0), Err(PlaceError::SourceClipped));
}
#[test]
fn test_grid_destination_clobbered() {
    let mut grid = Grid::new(&GridSettings {
        height: 7,
        width: 7,
        has_oob: false,
        command_line_row: 3,
    });
    let blocker = Mask::new(
        (7, 7),
        vec![
            true, false, false, false, false, false, false,
            false, false, false, false, false, false, false,
            false, false, false, false, false, false, false,
            false, false, false, false, false, false, false,
            false, false, false, false, false, false, false,
            false, false, false, false, false, false, false,
            false, false, false, false, false, false, false,
        ],
    )
    .unwrap();
    assert!(grid.place(&blocker, Position { x: 0, y: 0 }, 2).is_ok());
    let super_armor = Mask::new(
        (7, 7),
        vec![
            true, false, false, false, false, false, false,
            true, true, false, false, false, false, false,
            true, false, false, false, false, false, false,
            false, false, false, false, false, false, false,
            false, false, false, false, false, false, false,
            false, false, false, false, false, false, false,
            false, false, false, false, false, false, false,
        ],
    )
    .unwrap();
    assert_eq!(grid.place(&super_armor, Position { x: 0, y: 0 }, 0), Err(PlaceError::DestinationClobbered));
}
#[test]
fn grid_place_rejects_mask_of_another_shape() {
    let mut grid = Grid::new(&GridSettings {
        height: 7,
        width: 7,
        has_oob: false,
        command_line_row: 3,
    });
    let small = Mask::new((3, 2), vec![true, false, true, true, true, false]).unwrap();
    assert_eq!(
        grid.place(&small, Position { x: 0, y: 0 }, 0),
        Err(PlaceError::ShapesMismatched {
            grid_height: 7,
            grid_width: 7,
            mask_height: 3,
            mask_width: 2,
        })
    );
    assert_eq!(grid.rows(), vec![vec![Cell::Empty; 7]; 7]);
}

#[test]
fn grid_new_forbids_exactly_the_corners() {
    let grid = Grid::new(&GridSettings {
        height: 3,
        width: 4,
        has_oob: true,
        command_line_row: 1,
    });
    assert_eq!(
        grid.rows(),
        vec![
            vec![Cell::Forbidden, Cell::Empty, Cell::Empty, Cell::Forbidden],
            vec![Cell::Empty, Cell::Empty, Cell::Empty, Cell::Empty],
            vec![Cell::Forbidden, Cell::Empty, Cell::Empty, Cell::Forbidden],
        ]
    );
    assert_eq!(grid.cell(0, 3), Cell::Forbidden);
    assert_eq!(grid.cell(1, 3), Cell::Empty);
    assert_eq!(
        grid.settings(),
        GridSettings {
            height: 3,
            width: 4,
            has_oob: true,
            command_line_row: 1,
        }
    );
}

#[test]
fn grid_corner_touch_is_clobbered_not_clipped() {
    let mut grid = Grid::new(&GridSettings {
        height: 3,
        width: 3,
        has_oob: true,
        command_line_row: 1,
    });
    let bar = Mask::new((3, 3), vec![true, true, true, false, false, false, false, false, false]).unwrap();
    assert_eq!(grid.place(&bar, Position { x: 0, y: 2 }, 1), Err(PlaceError::DestinationClobbered));
    assert_eq!(grid.place(&bar, Position { x: 0, y: 1 }, 1), Ok(()));
    assert_eq!(grid.cell(1, 0), Cell::Placed(1));
    assert_eq!(grid.cell(0, 0), Cell::Forbidden);
}

#[test]
fn grid_second_placement_keeps_the_first() {
    let mut grid = Grid::new(&GridSettings {
        height: 2,
        width: 2,
        has_oob: false,
        command_line_row: 0,
    });
    let dot = Mask::new((2, 2), vec![true, false, false, false]).unwrap();
    assert_eq!(grid.place(&dot, Position { x: 1, y: 1 }, 4), Ok(()));
    assert_eq!(grid.place(&dot, Position { x: 1, y: 1 }, 5), Err(PlaceError::DestinationClobbered));
    assert_eq!(grid.place(&dot, Position { x: 0, y: 1 }, 5), Ok(()));
    assert_eq!(
        grid.rows(),
        vec![vec![Cell::Empty, Cell::Empty], vec![Cell::Placed(5), Cell::Placed(4)]]
    );
    let copy = grid.copy();
    assert_eq!(copy.rows(), grid.rows());
}

#[test]
fn grid_place_rotated_mask() {
    let mut grid = Grid::new(&GridSettings {
        height: 7,
        width: 7,
        has_oob: false,
        command_line_row: 3,
    });
    let super_armor = Mask::new(
        (7, 7),
        vec![
            true, false, false, false, false, false, false,
            true, true, false, false, false, false, false,
            true, false, false, false, false, false, false,
            false, false, false, false, false, false, false,
            false, false, false, false, false, false, false,
            false, false, false, false, false, false, false,
            false, false, false, false, false, false, false,
        ],
    )
    .unwrap();
    assert!(grid.place(&super_armor.rotate(1), Position { x: 0, y: 0 }, 0).is_ok());
    let e = Cell::Empty;
    let p = Cell::Placed(0);
    let mut expected = vec![vec![e; 7]; 7];
    expected[0] = vec![e, e, e, e, p, p, p];
    expected[1] = vec![e, e, e, e, e, p, e];
    assert_eq!(grid.rows(), expected);
}

use navicust::grid::{Cell, Grid, GridSettings, Position};
use navicust::mask::Mask;
use navicust::placement::{Constraint, Location, Part, Placement, Requirement};
use navicust::search::{requirements_are_admissible, solution_is_admissible, solve};

#[test]
fn solver_test_solve() {
    let super_armor = Mask::new(
        (3, 3),
        vec![
            true, false, false,
            true, true, false,
            true, false, false,
        ],
    )
    .unwrap();
    assert_eq!(
        solve(
            &[Part {
                is_solid: true,
                color: 0,
                compressed_mask: super_armor.clone(),
                uncompressed_mask: super_armor.clone(),
            }][..],
            &[Requirement {
                part_index: 0,
                constraint: Constraint {
                    compressed: Some(true),
                    on_command_line: Some(true),
                    bugged: Some(false),
                },
            }],
            &GridSettings {
        height: 3,
        width: 3,
        has_oob: false,
        command_line_row: 1,
    },
        ),
        vec![
            vec![Placement {
                loc: Location {
                    position: Position { x: 0, y: 0 },
                    rotation: 0
                },
                compressed: true
            }],
            vec![Placement {
                loc: Location {
                    position: Position { x: 1, y: 0 },
                    rotation: 0
                },
                compressed: true
            }],
            vec![Placement {
                loc: Location {
                    position: Position { x: 0, y: 0 },
                    rotation: 1
                },
                compressed: true
            }],
            vec![Placement {
                loc: Location {
                    position: Position { x: 0, y: 1 },
                    rotation: 1
                },
                compressed: true
            }],
            vec![Placement {
                loc: Location {
                    position: Position { x: -1, y: 0 },
                    rotation: 2
                },
                compressed: true
            }],
            vec![Placement {
                loc: Location {
                    position: Position { x: 0, y: 0 },
                    rotation: 2
                },
                compressed: true
            }],
            vec![Placement {
                loc: Location {
                    position: Position { x: 0, y: -1 },
                    rotation: 3
                },
                compressed: true
            }],
            vec![Placement {
                loc: Location {
                    position: Position { x: 0, y: 0 },
                    rotation: 3
                },
                compressed: true
            }],
        ]
    );
}

#[test]
fn solve_is_repeatable() {
    let super_armor = Mask::new(
        (3, 3),
        vec![
            true, false, false,
            true, true, false,
            true, false, false,
        ],
    )
    .unwrap();
    let parts = vec![Part {
        is_solid: true,
        color: 0,
        compressed_mask: super_armor.clone(),
        uncompressed_mask: super_armor.clone(),
    }];
    let reqs = vec![Requirement {
        part_index: 0,
        constraint: Constraint {
            compressed: None,
            on_command_line: None,
            bugged: None,
        },
    }];
    let settings = GridSettings {
        height: 3,
        width: 3,
        has_oob: false,
        command_line_row: 1,
    };
    let first = solve(&parts, &reqs, &settings);
    let second = solve(&parts, &reqs, &settings);
    assert_eq!(first, second);
    assert!(!first.is_empty());
}

#[test]
fn solve_gives_each_requirement_one_placement() {
    let dot = Mask::new(
        (2, 2),
        vec![
            true, false,
            false, false,
        ],
    )
    .unwrap();
    let parts = vec![
        Part { is_solid: true, color: 0, compressed_mask: dot.clone(), uncompressed_mask: dot.clone() },
        Part { is_solid: true, color: 1, compressed_mask: dot.clone(), uncompressed_mask: dot.clone() },
    ];
    let free = Constraint { compressed: None, on_command_line: None, bugged: None };
    let reqs = vec![
        Requirement { part_index: 0, constraint: free },
        Requirement { part_index: 1, constraint: free },
        Requirement { part_index: 0, constraint: free },
    ];
    let settings = GridSettings {
        height: 2,
        width: 2,
        has_oob: false,
        command_line_row: 0,
    };
    let sols = solve(&parts, &reqs, &settings);
    // part 1 takes one of four cells, the two copies of part 0 two of the
    // other three: twelve boards, each found once
    assert_eq!(sols.len(), 12);
    for sol in &sols {
        assert_eq!(sol.len(), 3);
        let mut cells: Vec<(isize, isize)> = sol.iter().map(|p| (p.loc.position.x, p.loc.position.y)).collect();
        cells.sort();
        cells.dedup();
        assert_eq!(cells.len(), 3);
    }
    for a in 0..sols.len() {
        for b in (a + 1)..sols.len() {
            let board = |s: &Vec<Placement>| {
                let mut cells = vec![None; 4];
                for (i, p) in s.iter().enumerate() {
                    cells[(p.loc.position.y * 2 + p.loc.position.x) as usize] = Some(reqs[i].part_index);
                }
                cells
            };
            assert_ne!(board(&sols[a]), board(&sols[b]));
        }
    }
}

#[test]
fn solve_rejects_overfull_requirements() {
    let dot = Mask::new(
        (2, 2),
        vec![
            true, false,
            false, false,
        ],
    )
    .unwrap();
    let parts = vec![Part { is_solid: true, color: 0, compressed_mask: dot.clone(), uncompressed_mask: dot.clone() }];
    let free = Constraint { compressed: None, on_command_line: None, bugged: None };
    let reqs = vec![Requirement { part_index: 0, constraint: free }; 4];
    let settings = GridSettings {
        height: 2,
        width: 2,
        has_oob: false,
        command_line_row: 0,
    };
    assert!(!requirements_are_admissible(&parts, &reqs, &settings));
    assert!(solve(&parts, &reqs, &settings).is_empty());
    assert!(requirements_are_admissible(&parts, &reqs[..3], &settings));
    let on_line = Constraint { compressed: None, on_command_line: Some(true), bugged: None };
    let reqs = vec![Requirement { part_index: 0, constraint: on_line }; 3];
    let wide = GridSettings {
        height: 3,
        width: 2,
        has_oob: false,
        command_line_row: 0,
    };
    assert!(!requirements_are_admissible(&parts, &reqs, &wide));
    assert!(requirements_are_admissible(&parts, &reqs[..2], &wide));
}

#[test]
fn solution_colors_must_match_bug_expectation() {
    let dot = Mask::new(
        (3, 3),
        vec![
            true, false, false,
            false, false, false,
            false, false, false,
        ],
    )
    .unwrap();
    let parts = vec![
        Part { is_solid: true, color: 7, compressed_mask: dot.clone(), uncompressed_mask: dot.clone() },
        Part { is_solid: true, color: 7, compressed_mask: dot.clone(), uncompressed_mask: dot.clone() },
    ];
    let bugged = Constraint { compressed: None, on_command_line: None, bugged: Some(true) };
    let clean = Constraint { compressed: None, on_command_line: None, bugged: Some(false) };
    let reqs = vec![
        Requirement { part_index: 0, constraint: bugged },
        Requirement { part_index: 1, constraint: clean },
    ];
    let mut grid = Grid::new(&GridSettings {
        height: 3,
        width: 3,
        has_oob: false,
        command_line_row: 1,
    });
    assert!(grid.place(&dot, Position { x: 0, y: 0 }, 0).is_ok());
    assert!(grid.place(&dot, Position { x: 2, y: 2 }, 1).is_ok());
    // apart: the bugged expectation fails
    assert!(!solution_is_admissible(&parts, &reqs, &grid));
    let mut grid = Grid::new(&GridSettings {
        height: 3,
        width: 3,
        has_oob: false,
        command_line_row: 1,
    });
    assert!(grid.place(&dot, Position { x: 0, y: 0 }, 0).is_ok());
    assert!(grid.place(&dot, Position { x: 1, y: 0 }, 1).is_ok());
    assert_eq!(grid.cell(0, 1), Cell::Placed(1));
    // touching: the clean expectation fails
    assert!(!solution_is_admissible(&parts, &reqs, &grid));
    let loose = vec![
        Requirement { part_index: 0, constraint: bugged },
        Requirement { part_index: 1, constraint: bugged },
    ];
    assert!(solution_is_admissible(&parts, &loose, &grid));
}

#[test]
fn solve_keeps_parts_with_empty_masks() {
    let dot = Mask::new((3, 3), vec![true, false, false, false, false, false, false, false, false]).unwrap();
    let blank = Mask::new((3, 3), vec![false; 9]).unwrap();
    let parts = vec![
        Part { is_solid: true, color: 0, compressed_mask: dot.clone(), uncompressed_mask: dot.clone() },
        Part { is_solid: true, color: 1, compressed_mask: blank.clone(), uncompressed_mask: blank.clone() },
    ];
    let free = Constraint { compressed: None, on_command_line: None, bugged: None };
    let reqs = vec![
        Requirement { part_index: 0, constraint: free },
        Requirement { part_index: 1, constraint: free },
    ];
    let settings = GridSettings { height: 3, width: 3, has_oob: false, command_line_row: 1 };
    let sols = solve(&parts, &reqs, &settings);
    // one board for each cell of the one-cell part; the empty part lands
    // anywhere, and the first place tried stands for all
    assert_eq!(sols.len(), 9);
    let at = |x: isize, y: isize| Placement {
        loc: Location { position: Position { x, y }, rotation: 0 },
        compressed: true,
    };
    assert_eq!(sols[0], vec![at(0, 0), at(-2, -2)]);
    assert_eq!(sols[8], vec![at(2, 2), at(-2, -2)]);
}

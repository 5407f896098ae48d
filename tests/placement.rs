use navicust::grid::{GridSettings, Position};
use navicust::mask::Mask;
use navicust::placement::{
    placement_is_admissible, placement_locations_for_mask, placement_positions_for_mask, placements,
    Constraint, Location, Part, Placement,
};

#[test]
fn test_placement_positions_for_mask() {
    let super_armor = Mask::new(
        (7, 7),
        vec![
            true, false, false, false, false, false, false,
            true, true, false, false, false, false, false,
            true, false, false, false, false, false, false,
            false, false, false, false, false, false, false,
            false, false, false, false, false, false, false,
            false, false, false, false, false, false, false,
            false, false, false, false, false, false, false,
        ],
    )
    .unwrap();
    assert_eq!(
        placement_positions_for_mask(
            &super_armor,
            true,
            &GridSettings {
        height: 7,
        width: 7,
        has_oob: true,
        command_line_row: 3,
    },
            None,
            None,
        ),
        vec![
            Position { x: 1, y: 0 },
            Position { x: 2, y: 0 },
            Position { x: 3, y: 0 },
            Position { x: 4, y: 0 },
            Position { x: 5, y: 0 },
            Position { x: 0, y: 1 },
            Position { x: 1, y: 1 },
            Position { x: 2, y: 1 },
            Position { x: 3, y: 1 },
            Position { x: 4, y: 1 },
            Position { x: 5, y: 1 },
            Position { x: 0, y: 2 },
            Position { x: 1, y: 2 },
            Position { x: 2, y: 2 },
            Position { x: 3, y: 2 },
            Position { x: 4, y: 2 },
            Position { x: 5, y: 2 },
            Position { x: 0, y: 3 },
            Position { x: 1, y: 3 },
            Position { x: 2, y: 3 },
            Position { x: 3, y: 3 },
            Position { x: 4, y: 3 },
            Position { x: 5, y: 3 },
            Position { x: 1, y: 4 },
            Position { x: 2, y: 4 },
            Position { x: 3, y: 4 },
            Position { x: 4, y: 4 },
            Position { x: 5, y: 4 },
        ]
    );
}

#[test]
fn test_placement_positions_for_mask_on_command_line() {
    let super_armor = Mask::new(
        (7, 7),
        vec![
            true, false, false, false, false, false, false,
            true, true, false, false, false, false, false,
            true, false, false, false, false, false, false,
            false, false, false, false, false, false, false,
            false, false, false, false, false, false, false,
            false, false, false, false, false, false, false,
            false, false, false, false, false, false, false,
        ],
    )
    .unwrap();
    assert_eq!(
        placement_positions_for_mask(
            &super_armor,
            true,
            &GridSettings {
        height: 7,
        width: 7,
        has_oob: true,
        command_line_row: 3,
    },
            Some(true),
            None,
        ),
        vec![
            Position { x: 0, y: 1 },
            Position { x: 1, y: 1 },
            Position { x: 2, y: 1 },
            Position { x: 3, y: 1 },
            Position { x: 4, y: 1 },
            Position { x: 5, y: 1 },
            Position { x: 0, y: 2 },
            Position { x: 1, y: 2 },
            Position { x: 2, y: 2 },
            Position { x: 3, y: 2 },
            Position { x: 4, y: 2 },
            Position { x: 5, y: 2 },
            Position { x: 0, y: 3 },
            Position { x: 1, y: 3 },
            Position { x: 2, y: 3 },
            Position { x: 3, y: 3 },
            Position { x: 4, y: 3 },
            Position { x: 5, y: 3 },
        ]
    );
}

#[test]
fn test_placement_positions_for_mask_not_bugged() {
    let super_armor = Mask::new(
        (7, 7),
        vec![
            true, false, false, false, false, false, false,
            true, true, false, false, false, false, false,
            true, false, false, false, false, false, false,
            false, false, false, false, false, false, false,
            false, false, false, false, false, false, false,
            false, false, false, false, false, false, false,
            false, false, false, false, false, false, false,
        ],
    )
    .unwrap();
    assert_eq!(
        placement_positions_for_mask(
            &super_armor,
            true,
            &GridSettings {
        height: 7,
        width: 7,
        has_oob: true,
        command_line_row: 3,
    },
            None,
            Some(false),
        ),
        vec![
            Position { x: 1, y: 1 },
            Position { x: 2, y: 1 },
            Position { x: 3, y: 1 },
            Position { x: 4, y: 1 },
            Position { x: 1, y: 2 },
            Position { x: 2, y: 2 },
            Position { x: 3, y: 2 },
            Position { x: 4, y: 2 },
            Position { x: 1, y: 3 },
            Position { x: 2, y: 3 },
            Position { x: 3, y: 3 },
            Position { x: 4, y: 3 },
        ]
    );
}

#[test]
fn test_placement_locations_for_mask() {
    let super_armor = Mask::new(
        (3, 3),
        vec![
            true, false, false,
            true, false, false,
            true, false, false,
        ],
    )
    .unwrap();
    assert_eq!(
        placement_locations_for_mask(
            &super_armor,
            true,
            &GridSettings {
        height: 3,
        width: 3,
        has_oob: false,
        command_line_row: 1,
    },
            None,
            Some(false),
        ),
        vec![
            Location {
                position: Position { x: 0, y: 0 },
                rotation: 0
            },
            Location {
                position: Position { x: 1, y: 0 },
                rotation: 0
            },
            Location {
                position: Position { x: 2, y: 0 },
                rotation: 0
            },
            Location {
                position: Position { x: 0, y: 1 },
                rotation: 1
            },
        ]
    );
}

#[test]
fn placement_admissibility_flags() {
    let settings = GridSettings {
        height: 3,
        width: 3,
        has_oob: true,
        command_line_row: 1,
    };
    let dot = Mask::new(
        (3, 3),
        vec![
            true, false, false,
            false, false, false,
            false, false, false,
        ],
    )
    .unwrap();
    // a corner is forbidden
    assert!(!placement_is_admissible(&dot, Position { x: 0, y: 0 }, true, &settings, None, None));
    // the middle of the top row is fine without flags
    assert!(placement_is_admissible(&dot, Position { x: 1, y: 0 }, true, &settings, None, None));
    // but not when it must stay off the ring
    assert!(!placement_is_admissible(&dot, Position { x: 1, y: 0 }, true, &settings, None, Some(false)));
    // the centre is on the command line
    assert!(placement_is_admissible(&dot, Position { x: 1, y: 1 }, true, &settings, Some(true), None));
    assert!(!placement_is_admissible(&dot, Position { x: 1, y: 1 }, true, &settings, Some(false), None));
    // a solid part that must not be bugged belongs on the command line
    assert!(placement_is_admissible(&dot, Position { x: 1, y: 1 }, true, &settings, None, Some(false)));
    assert!(!placement_is_admissible(&dot, Position { x: 1, y: 1 }, false, &settings, None, Some(false)));
    // a bugged expectation does not constrain the command line
    assert!(placement_is_admissible(&dot, Position { x: 1, y: 2 }, true, &settings, None, Some(true)));
    // off the board
    assert!(!placement_is_admissible(&dot, Position { x: 3, y: 0 }, true, &settings, None, None));
}

#[test]
fn placements_follow_the_mask_variant() {
    let settings = GridSettings {
        height: 2,
        width: 2,
        has_oob: false,
        command_line_row: 0,
    };
    let dot = Mask::new(
        (2, 2),
        vec![
            true, false,
            false, false,
        ],
    )
    .unwrap();
    let bar = Mask::new(
        (2, 2),
        vec![
            true, true,
            false, false,
        ],
    )
    .unwrap();
    let part = Part {
        is_solid: true,
        color: 0,
        compressed_mask: dot.clone(),
        uncompressed_mask: bar.clone(),
    };
    let at = |x: isize, y: isize, rotation: usize, compressed: bool| Placement {
        loc: Location { position: Position { x, y }, rotation },
        compressed,
    };
    let none = Constraint { compressed: None, on_command_line: None, bugged: None };
    let only_bar = Constraint { compressed: Some(false), on_command_line: None, bugged: None };
    let only_dot = Constraint { compressed: Some(true), on_command_line: None, bugged: None };
    let dots = vec![at(0, 0, 0, true), at(1, 0, 0, true), at(0, 1, 0, true), at(1, 1, 0, true)];
    let bars = vec![
        at(0, 0, 0, false),
        at(0, 1, 0, false),
        at(-1, 0, 1, false),
        at(0, 0, 1, false),
    ];
    assert_eq!(placements(&part, &settings, &only_dot), dots);
    assert_eq!(placements(&part, &settings, &only_bar), bars);
    let mut both = dots.clone();
    both.extend(bars.iter().cloned());
    assert_eq!(placements(&part, &settings, &none), both);
    let same = Part {
        is_solid: true,
        color: 0,
        compressed_mask: dot.clone(),
        uncompressed_mask: dot.clone(),
    };
    assert_eq!(placements(&same, &settings, &none), dots);
}

use navicust::mask::{Mask, MaskError};

#[test]
fn solver_test_mask_rot90() {
    let mask = Mask::new(
        (7, 7),
        vec![
            true, true, true, true, true, false, false,
            true, true, true, true, false, false, false,
            true, true, true, true, false, false, false,
            true, true, true, true, false, false, false,
            true, true, true, true, false, false, false,
            true, true, true, true, false, false, false,
            true, true, true, true, false, false, false,
        ],
    )
    .unwrap();
    let mask = mask.rotate90();
    assert_eq!(mask, Mask::new(
        (7, 7),
        vec![
            true, true, true, true, true, true, true,
            true, true, true, true, true, true, true,
            true, true, true, true, true, true, true,
            true, true, true, true, true, true, true,
            false, false, false, false, false, false, true,
            false, false, false, false, false, false, false,
            false, false, false, false, false, false, false,
        ],
    )
    .unwrap());
}

#[test]
fn placement_test_mask_rot90() {
    let mask = Mask::new(
        (7, 7),
        vec![
            true, true, true, true, true, false, false,
            true, true, true, true, false, false, false,
            true, true, true, true, false, false, false,
            true, true, true, true, false, false, false,
            true, true, true, true, false, false, false,
            true, true, true, true, false, false, false,
            true, true, true, true, false, false, false,
        ],
    )
    .unwrap();
    let mask = mask.rotate90();
    assert_eq!(mask, Mask::new(
        (7, 7),
        vec![
            true, true, true, true, true, true, true,
            true, true, true, true, true, true, true,
            true, true, true, true, true, true, true,
            true, true, true, true, true, true, true,
            false, false, false, false, false, false, true,
            false, false, false, false, false, false, false,
            false, false, false, false, false, false, false,
        ],
    )
    .unwrap());
}

#[test]
fn test_mask_trimmed() {
    let super_armor = Mask::new(
        (3, 3),
        vec![
            true, false, false,
            true, false, false,
            true, false, false,
        ],
    )
    .unwrap();
    let expected_super_armor = Mask::new(
        (3, 1),
        vec![
            true,
            true,
            true,
        ],
    )
    .unwrap();
    assert_eq!(super_armor.trimmed(), expected_super_armor);
}

#[test]
fn mask_four_turns_restore_the_mask() {
    let mask = Mask::new(
        (4, 3),
        vec![
            true, true, false,
            true, false, false,
            true, false, false,
            false, false, false,
        ],
    )
    .unwrap();
    let once = mask.rotate(1);
    assert_eq!(once.dims(), (3, 4));
    assert_eq!(once, Mask::new(
        (3, 4),
        vec![
            false, true, true, true,
            false, false, false, true,
            false, false, false, false,
        ],
    )
    .unwrap());
    assert_eq!(mask.rotate(4), mask);
    assert_eq!(mask.rotate(0), mask);
    assert_ne!(mask.rotate(2), mask);
    assert_eq!(mask.rotate90().rotate90().rotate90().rotate90(), mask);
}

#[test]
fn mask_trimming_twice_changes_nothing() {
    let mask = Mask::new(
        (4, 4),
        vec![
            false, false, false, false,
            false, true, false, false,
            false, true, true, false,
            false, false, false, false,
        ],
    )
    .unwrap();
    let once = mask.trimmed();
    assert_eq!(once, Mask::new(
        (2, 2),
        vec![
            true, false,
            true, true,
        ],
    )
    .unwrap());
    assert_eq!(once.trimmed(), once);
    let empty = Mask::new((2, 3), vec![false; 6]).unwrap();
    assert_eq!(empty.trimmed(), empty);
    assert_eq!(empty.trimmed().trimmed(), empty);
}

#[test]
fn mask_new_rejects_wrong_cell_count() {
    assert_eq!(Mask::new((2, 3), vec![true; 5]), Err(MaskError::IncompatibleShape));
    assert_eq!(Mask::new((usize::MAX, 2), vec![]), Err(MaskError::Overflow));
    assert!(Mask::new((2, 3), vec![true; 7]).is_err());
    assert!(Mask::new((0, 3), vec![true]).is_err());
    let m = Mask::new((2, 3), vec![true, false, false, false, false, true]).unwrap();
    assert_eq!(m.dims(), (2, 3));
    assert!(m.get(0, 0));
    assert!(!m.get(0, 1));
    assert!(m.get(1, 2));
}

#[test]
fn mask_equality_is_structural() {
    let a = Mask::new((1, 2), vec![true, false]).unwrap();
    let b = Mask::new((2, 1), vec![true, false]).unwrap();
    assert_ne!(a, b);
    assert_eq!(a.clone(), a);
    assert_eq!(a.copy(), a);
    assert_ne!(a, Mask::new((1, 2), vec![false, true]).unwrap());
    assert_eq!(Mask::new((0, 2), vec![]).unwrap(), Mask::new((0, 2), vec![]).unwrap());
    assert_ne!(Mask::new((0, 2), vec![]).unwrap(), Mask::new((0, 3), vec![]).unwrap());
}

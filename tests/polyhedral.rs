use navicust::polyhedral::{solve, Constraint, Effect};

#[test]
fn polyhedral_test_solve() {
    assert_eq!(
        solve(
        &[
            vec![Effect { bugless: 1, bugged: 0 }, Effect { bugless: 0, bugged: 0 }],
            vec![Effect { bugless: 0, bugged: 0 }, Effect { bugless: 100, bugged: 100 }],
        ],
            4,
            &[Constraint { target: 1, limit: 1 }, Constraint { target: 300, limit: 300 }],
        ),
        vec![vec![1, 3]]
    );
}

#[test]
fn test_solve_inexact() {
    assert_eq!(
        solve(
        &[
            vec![Effect { bugless: 1, bugged: 0 }, Effect { bugless: 0, bugged: 0 }],
            vec![Effect { bugless: 0, bugged: 0 }, Effect { bugless: 100, bugged: 100 }],
        ],
            10,
            &[Constraint { target: 1, limit: 1 }, Constraint { target: 350, limit: 500 }],
        ),
        vec![vec![1, 4]]
    );
}

#[test]
fn test_solve_limit() {
    assert_eq!(
        solve(
        &[
            vec![Effect { bugless: 100, bugged: 100 }],
        ],
            10,
            &[Constraint { target: 50, limit: 50 }],
        ),
        Vec::<Vec<usize>>::new()
    );
}

#[test]
fn test_solve_largest_first() {
    assert_eq!(
        solve(
        &[
            vec![Effect { bugless: 10, bugged: 10 }],
            vec![Effect { bugless: 50, bugged: 50 }],
            vec![Effect { bugless: 100, bugged: 100 }],
        ],
            2,
            &[Constraint { target: 100, limit: 100 }],
        ),
        vec![vec![0, 0, 1], vec![0, 2, 0]]
    );
}

#[test]
fn test_solve_multiple_effects() {
    assert_eq!(
        solve(
        &[
            vec![Effect { bugless: 1, bugged: 0 }, Effect { bugless: 1, bugged: 0 }],
            vec![Effect { bugless: 1, bugged: 0 }, Effect { bugless: 0, bugged: 0 }],
            vec![Effect { bugless: 0, bugged: 0 }, Effect { bugless: 1, bugged: 0 }],
        ],
            2,
            &[Constraint { target: 1, limit: 1 }, Constraint { target: 0, limit: 1 }],
        ),
        vec![vec![1, 0, 0], vec![0, 1, 0]]
    );
}

#[test]
fn test_solve_multiple_effects_limit() {
    assert_eq!(
        solve(
        &[
            vec![Effect { bugless: 1, bugged: 1 }, Effect { bugless: 1, bugged: 1 }],
            vec![Effect { bugless: 1, bugged: 1 }, Effect { bugless: 0, bugged: 0 }],
            vec![Effect { bugless: 0, bugged: 0 }, Effect { bugless: 1, bugged: 1 }],
        ],
            2,
            &[Constraint { target: 1, limit: 1 }, Constraint { target: 0, limit: 0 }],
        ),
        vec![vec![0, 1, 0]]
    );
}

#[test]
fn polyhedral_budget_bounds_the_search() {
    assert_eq!(
        solve(
        &[
            vec![Effect { bugless: 1, bugged: 1 }],
        ],
            2,
            &[Constraint { target: 3, limit: 3 }],
        ),
        Vec::<Vec<usize>>::new()
    );
}

#[test]
fn polyhedral_nothing_to_reach() {
    assert_eq!(
        solve(
        &[
            vec![Effect { bugless: 5, bugged: 5 }],
            vec![Effect { bugless: 1, bugged: 2 }],
        ],
            0,
            &[Constraint { target: 0, limit: 9 }],
        ),
        vec![vec![0, 0]]
    );
}

#[test]
fn polyhedral_bugged_effect_counts_as_reachable() {
    assert_eq!(
        solve(
        &[
            vec![Effect { bugless: 0, bugged: 40 }],
        ],
            3,
            &[Constraint { target: 100, limit: 50 }],
        ),
        vec![vec![3]]
    );
}

#[test]
fn polyhedral_attribute_at_its_limit_stays_open() {
    // the target of 5 is out of reach without passing the limit of 0
    assert_eq!(
        solve(&[vec![Effect { bugless: 1, bugged: 1 }]], 1, &[Constraint { target: 5, limit: 0 }]),
        Vec::<Vec<usize>>::new()
    );
    // an attribute already at its limit may still take parts that add
    // nothing sure to it; both orders of the first two parts are tried
    assert_eq!(
        solve(
            &[vec![Effect { bugless: 1, bugged: 1 }], vec![Effect { bugless: 0, bugged: 3 }]],
            2,
            &[Constraint { target: 4, limit: 1 }],
        ),
        vec![vec![1, 1], vec![1, 1], vec![0, 2]]
    );
}

use minesweeper::{Constraint, Fact, FactDebug, Location, LocationSet, Minefield, Solver};

fn locations(ls: &[(usize, usize)]) -> LocationSet {
    let mut set = LocationSet::new();
    for &(x, y) in ls {
        set.insert(Location::new(x, y));
    }
    set
}

fn fact(_base: (usize, usize), mine_count: usize, proximity: &[(usize, usize)]) -> Fact {
    Fact::new(
        Constraint::Exact,
        mine_count,
        locations(proximity),
        0,
        FactDebug::base(Some(Location::invalid()), "Seeder"),
    )
}

fn check_facts(expected: Vec<Fact>, actual: Vec<Fact>) {
    for e in &expected {
        assert!(
            actual.iter().any(|a| a == e),
            "Expected fact missing: kind {:?} count {}.",
            e.kind,
            e.count
        );
    }
    for a in &actual {
        assert!(
            expected.iter().any(|e| e == a),
            "Unexpected fact: kind {:?} count {}.",
            a.kind,
            a.count
        );
    }
    assert_eq!(expected.len(), actual.len(), "Different number of facts!");
}

#[test]
fn seed() {
    let grid = "13m3m211
                         m4m423m1
                         m5e3m21e
                         mmem3321
                         eeee3mm2
                         1m2m223m
                        ";
    let mf = Minefield::new_active_game(&grid);
    let mut repo = Solver::new(&mf);
    repo.seed();
    repo.seed_universal_fact();

    let expected = vec![
        // row 0
        fact((0, 0), 1, &[(0, 1)]),
        fact((1, 0), 3, &[(2, 0), (2, 1), (0, 1)]),
        fact((3, 0), 3, &[(2, 0), (4, 0), (2, 1)]),
        fact((5, 0), 2, &[(4, 0), (6, 1)]),
        fact((6, 0), 1, &[(6, 1)]),
        // duplicate fact((7, 0), 1, [(6, 1)]),
        // row 1
        fact((1, 1), 4, &[(2, 0), (0, 1), (2, 1), (0, 2), (2, 2)]),
        fact((3, 1), 4, &[(2, 0), (4, 0), (2, 1), (4, 2), (2, 2)]),
        fact((4, 1), 2, &[(4, 2), (4, 0)]),
        fact((5, 1), 3, &[(4, 0), (4, 2), (6, 1)]),
        fact((7, 1), 1, &[(6, 1), (7, 2)]),
        // row 2
        fact(
            (1, 2),
            5,
            &[(0, 1), (2, 1), (0, 2), (2, 2), (0, 3), (1, 3), (2, 3)],
        ),
        fact((3, 2), 3, &[(2, 1), (2, 2), (4, 2), (2, 3), (3, 3)]),
        fact((5, 2), 2, &[(6, 1), (4, 2)]),
        // duplicate fact((6, 2), 1, [(6, 1), (7, 2)]),
        // row 3
        fact((4, 3), 3, &[(4, 2), (3, 3), (3, 4), (5, 4)]),
        fact((5, 3), 3, &[(4, 2), (5, 4), (6, 4)]),
        fact((6, 3), 2, &[(7, 2), (5, 4), (6, 4)]),
        fact((7, 3), 1, &[(7, 2), (6, 4)]),
        // row 4
        fact((4, 4), 3, &[(3, 3), (3, 4), (5, 4), (3, 5)]),
        fact((7, 4), 2, &[(6, 4), (7, 5)]),
        // row 5
        fact((0, 5), 1, &[(0, 4), (1, 4), (1, 5)]),
        fact((2, 5), 2, &[(1, 4), (2, 4), (3, 4), (1, 5), (3, 5)]),
        fact((4, 5), 2, &[(3, 4), (5, 4), (3, 5)]),
        fact((5, 5), 2, &[(5, 4), (6, 4)]),
        fact((6, 5), 3, &[(5, 4), (6, 4), (7, 5)]),
        // all locations
        fact(
            (0, 0),
            15,
            &[
                (0, 1),
                (0, 2),
                (0, 3),
                (0, 4),
                (1, 3),
                (1, 4),
                (1, 5),
                (2, 0),
                (2, 1),
                (2, 2),
                (2, 3),
                (2, 4),
                (3, 3),
                (3, 4),
                (3, 5),
                (4, 0),
                (4, 2),
                (5, 4),
                (6, 1),
                (6, 4),
                (7, 2),
                (7, 5),
            ],
        ),
    ];

    let actual = repo.facts;
    check_facts(expected, actual);
}

#[test]
fn one_fact_mine_deduction() {
    let grid = "m1";
    let mf = Minefield::new_active_game(&grid);

    let (safe, mine) = Solver::solve(&mf);

    assert_eq!(locations(&[(0, 0)]), mine);
    assert_eq!(locations(&[]), safe);
}

#[test]
fn two_fact_safe_deduction() {
    let grid = "m1
                         e1
                         ee";
    let mf = Minefield::new_active_game(&grid);

    let (safe, mine) = Solver::solve(&mf);

    assert_eq!(locations(&[]), mine);
    assert_eq!(locations(&[(0, 2), (1, 2)]), safe);
}

#[test]
fn two_fact_mine_and_safe_deduction() {
    let grid = "mmeee
                         2211m";
    let mf = Minefield::new_active_game(&grid);

    let (safe, mine) = Solver::solve(&mf);

    assert_eq!(locations(&[(0, 0), (1, 0)]), mine);
    assert_eq!(locations(&[(2, 0), (3, 0)]), safe);
}

#[test]
fn cross_deduction() {
    let grid = "eeeee
                         em1ee
                         e111m";
    let mf = Minefield::new_active_game(&grid);

    let (safe, mine) = Solver::solve(&mf);

    assert_eq!(locations(&[]), mine);
    assert_eq!(locations(&[(0, 0), (1, 0), (2, 0), (3, 0), (4, 0)]), safe);
}

#[test]
fn corner_deduct_case_1() {
    let grid = "12m1
                         em32
                         ee2m";
    let mf = Minefield::new_active_game(&grid);

    let (safe, mine) = Solver::solve(&mf);

    assert_eq!(locations(&[(2, 0), (1, 1), (3, 2)]), mine);
    assert_eq!(locations(&[(0, 1), (0, 2), (1, 2)]), safe);
}

#[test]
fn corner_deduct_case_2() {
    let grid = "12m1
                         me32
                         em2m";
    let mf = Minefield::new_active_game(&grid);

    let (safe, mine) = Solver::solve(&mf);

    assert_eq!(locations(&[(2, 0), (3, 2)]), mine);
    assert_eq!(locations(&[]), safe);
}

#[test]
fn corner_deduct_case_3() {
    let grid = "12m1
                         me32
                         mm2m";
    let mf = Minefield::new_active_game(&grid);

    let (safe, mine) = Solver::solve(&mf);

    assert_eq!(locations(&[(2, 0), (0, 1), (0, 2), (1, 2), (3, 2)]), mine);
    assert_eq!(locations(&[(1, 1)]), safe);
}

#[test]
fn real_example_1() {
    let grid = "meeeeeeeem100000000001em
                         eeemeeeeee111101110113me
                         emeemmemeeeem101m212meme
                         emeee3212m11110113meeeem
                         meeem1001110000002meeeee
                         eeme21000000001122eeeemm
                         eemm10000000001memeeeeem";
    let mf = Minefield::new_active_game(&grid);

    let (safe, mine) = Solver::solve(&mf);

    assert_eq!(
        locations(&[
            (4, 2),
            (5, 2),
            (7, 2),
            (12, 2),
            (16, 2),
            (20, 2),
            (22, 2),
            (9, 3),
            (18, 3),
            (4, 4),
            (18, 4),
            (15, 6),
            (17, 6),
        ]),
        mine
    );
    assert_eq!(
        locations(&[
            (6, 2),
            (8, 2),
            (9, 2),
            (10, 2),
            (11, 2),
            (21, 2),
            (4, 3),
            (19, 3),
            (20, 3),
            (3, 4),
            (18, 5),
            (16, 6),
            (18, 6)
        ]),
        safe
    );
}

#[test]
fn solver_is_sound_on_played_boards() {
    // whatever the solver claims of a board whose mines are all hidden
    // must agree with the ground
    let grid = "12m1
                         em32
                         ee2m";
    let mf = Minefield::new_active_game(&grid);
    let (safe, mine) = Solver::solve(&mf);
    let mut i = 0;
    while i < safe.len() {
        let l = safe.get(i);
        assert!(mf.ground().get(l).unwrap().is_dirt());
        i += 1;
    }
    let mut j = 0;
    while j < mine.len() {
        let l = mine.get(j);
        assert!(mf.ground().get(l).unwrap().is_mine());
        j += 1;
    }
}

#[test]
fn facts_serialize_as_csv() {
    let f = fact((0, 0), 2, &[(1, 0), (0, 2)]);
    assert_eq!(f.serialize(), "(NaN,NaN);Seeder;0;Exact;2;(1,0),(0,2)");
    let seeded = Fact::seeded(13, locations(&[(7, 12)]), Some(Location::new(3, 4)));
    assert_eq!(seeded.serialize(), "(3,4);Seeder;0;Exact;13;(7,12)");
}

#[test]
fn facts_and_outputs_grow_monotonically() {
    let grid = "m1
                         e1
                         ee";
    let mf = Minefield::new_active_game(&grid);
    let mut repo = Solver::new(&mf);
    repo.seed();
    let seeded = repo.facts.len();
    repo.run();
    assert!(repo.facts.len() >= seeded);
    let safe_before = repo.guaranteed_safe_locations();
    let mines_before = repo.guaranteed_mines();
    repo.seed_universal_fact();
    repo.run();
    // every earlier conclusion survives later iterations
    let safe_after = repo.guaranteed_safe_locations();
    let mines_after = repo.guaranteed_mines();
    assert!(safe_before.is_subset(&safe_after));
    assert!(mines_before.is_subset(&mines_after));
}

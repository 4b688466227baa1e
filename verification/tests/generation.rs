use minesweeper::{
    GroundKind, ImprovedGenerator, Location, MinefieldGenerator, Parameters, SimpleGenerator,
};

#[test]
fn location_skipper_maps_indices_correctly() {
    // Original indices:                Original mine locations:
    //  00 01 02 03 04 05 06 07 08 09    __ __ __ 03 __ __ __ __ __ __
    //  10 11 12 13 14+15-16-17+18 19    __ __ __ __ 14+15-__-__+__ __
    //  20 21 22 23 24|25 26 27|28 29    20 __ __ __ __|__ __ __|__ 29
    //  30 31 32 33 34+35-36-37+38 39    __ __ __ 33 __+__-__-__+__ 39
    //  40 41 42 43 44 45 46 47 48 49    __ __ __ __ __ __ __ __ __ __
    // Adjusted indices:                Adjusted mine locations:
    //  00 01 02 03 04 05 06 07 08 09    __ __ __ 03 __ __ __ __ __ __
    //  10 11 12 13 14+--------+15 16    __ __ __ __ 14+--------+15 __
    //  17 18 19 20 21|        |22 23    __ __ __ 20 __|        |__ __
    //  24 25 26 27 28+--------+29 30    __ __ __ __ __+--------+29 __
    //  31 32 33 34 35 36 37 38 39 40    __ __ 33 __ __ __ __ __ 39 __
    let width = 10;
    let not_a_mine = Location::from_index(26, width);
    let safe = ImprovedGenerator::build_safe_location_skipper(not_a_mine, width);

    let check = |input: usize, expected_result: usize, msg: &str| {
        assert_eq!(
            ImprovedGenerator::skip_safe(&safe, input),
            expected_result,
            "{}",
            msg
        );
    };
    check(03, 03, "Invalid adjustment before any safe location.");
    check(14, 14, "Invalid adjustment before 1st safe location.");
    check(15, 18, "Invalid adjustment at 1st safe location.");
    check(20, 23, "Invalid adjustment after 1st safe location block.");
    check(29, 38, "Invalid adjustment after 2nd safe location block.");
    check(33, 42, "Invalid adjustment before 3rd safe location block.");
    check(39, 48, "Invalid adjustment after 3rd safe location block.");
}

#[test]
fn generated_grounds_have_the_budget_and_a_safe_region() {
    let safe = Location::new(5, 5);
    let mut generator = ImprovedGenerator;
    for _ in 0..1000 {
        let ground = generator.generate(Parameters::new(10, 10, 10), safe);
        assert_eq!(ground.width(), 10);
        assert_eq!(ground.height(), 10);
        let mut mines = 0;
        for y in 0..10 {
            for x in 0..10 {
                if *ground.get(Location::new(x, y)).unwrap() == GroundKind::Mine {
                    mines += 1;
                }
            }
        }
        assert_eq!(mines, 10);
        for y in 4..=6usize {
            for x in 4..=6usize {
                assert_eq!(*ground.get(Location::new(x, y)).unwrap(), GroundKind::Dirt);
            }
        }
    }
}

#[test]
fn skipper_at_the_grid_edge_stays_inside() {
    // a corner safe cell has only three in-grid neighbours, so only four
    // indices are skipped
    let width = 10;
    let not_a_mine = Location::new(0, 0);
    let safe = ImprovedGenerator::build_safe_location_skipper(not_a_mine, width);
    assert_eq!(ImprovedGenerator::skip_safe(&safe, 0), 2);
    assert_eq!(ImprovedGenerator::skip_safe(&safe, 7), 9);
    assert_eq!(ImprovedGenerator::skip_safe(&safe, 8), 12);
    assert_eq!(ImprovedGenerator::skip_safe(&safe, 90), 94);
}

#[test]
fn rejection_sampling_attempts_are_exact_and_honest() {
    let safe = Location::new(5, 5);
    let mut accepted = 0;
    for _ in 0..200 {
        match SimpleGenerator::try_generate(Parameters::new(10, 10, 10), safe) {
            Some(ground) => {
                accepted += 1;
                let mut mines = 0;
                for y in 0..10 {
                    for x in 0..10 {
                        if *ground.get(Location::new(x, y)).unwrap() == GroundKind::Mine {
                            mines += 1;
                        }
                    }
                }
                assert_eq!(mines, 10);
                for y in 4..=6usize {
                    for x in 4..=6usize {
                        assert_eq!(*ground.get(Location::new(x, y)).unwrap(), GroundKind::Dirt);
                    }
                }
            }
            None => {}
        }
    }
    // with ten mines on a hundred cells, clear safe regions are common
    assert!(accepted > 0);
}

use std::collections::HashMap;

use minesweeper::{
    Action, ExecutionResult, GameState, GroundKind, Location, Minefield, Parameters,
    PendingCommand, State,
};

#[test]
fn make_active_game() {
    let input = "eemeeeeeee
                          eeeeeeeefe
                          e012345678
                          eeeeeeeeee
                          eeFeeeeeME
                          eeeeeeeeee";
    let mf = Minefield::new_active_game(input);

    assert!(matches!(mf.state(), GameState::InProgress { .. }));
    assert_eq!((mf.fog().width(), mf.fog().height()), (10, 6));
    assert_eq!((mf.ground().width(), mf.ground().height()), (10, 6));

    let mut symbols = HashMap::new();
    symbols.insert('m', Location::new(2, 0));
    symbols.insert('f', Location::new(8, 1));
    symbols.insert('F', Location::new(2, 4));
    symbols.insert('M', Location::new(8, 4));
    symbols.insert('E', Location::new(9, 4));
    symbols.insert('e', Location::new(8, 0));
    for i in 0..=8usize {
        symbols.insert(
            char::from_digit(i as u32, 10).unwrap(),
            Location::new(i + 1, 2),
        );
    }

    let check = |symbol: char, state: State, ground_kind: GroundKind| {
        assert_eq!(
            *mf.fog().get(symbols[&symbol]).unwrap(),
            state,
            "Unexpected fog at {:?} with symbol {}.",
            symbols[&symbol],
            symbol
        );
        assert_eq!(
            *mf.ground().get(symbols[&symbol]).unwrap(),
            ground_kind,
            "Unexpected ground at {:?} with symbol {}.",
            symbols[&symbol],
            symbol
        );
    };
    check('m', State::Hidden, GroundKind::Mine);
    check('M', State::Exploded, GroundKind::Mine);
    check('f', State::Marked, GroundKind::Dirt);
    check('F', State::Marked, GroundKind::Mine);
    check('E', State::Revealed { adj_mines: 1 }, GroundKind::Dirt);
    check('e', State::Hidden, GroundKind::Dirt);
    for symbol in '0'..='8' {
        check(symbol, State::Revealed { adj_mines: 0 }, GroundKind::Dirt);
    }
}

#[test]
fn flood_fill_opens_everything_but_the_mine() {
    // a ten-by-ten board with a single mine in the corner
    let mut grid = String::from("meeeeeeeee");
    for _ in 0..9 {
        grid.push('\n');
        grid.push_str("eeeeeeeeee");
    }
    let mut mf = Minefield::new_active_game(&grid);
    let result = mf.execute(PendingCommand::new(Location::new(9, 9), Action::Reveal));
    let updated = match result {
        ExecutionResult::SuccessNoStateChange(done) => done.updated_locations,
        ExecutionResult::SuccessAndStateChange(done) => done.updated_locations,
        ExecutionResult::Failed => panic!("the reveal must succeed"),
    };
    assert_eq!(updated.len(), 99);
    let mut revealed = 0;
    for y in 0..10 {
        for x in 0..10 {
            let state = *mf.fog().get(Location::new(x, y)).unwrap();
            if x == 0 && y == 0 {
                assert_eq!(state, State::Hidden);
            } else if x <= 1 && y <= 1 {
                assert_eq!(state, State::Revealed { adj_mines: 1 });
                revealed += 1;
            } else {
                assert_eq!(state, State::Revealed { adj_mines: 0 });
                revealed += 1;
            }
        }
    }
    assert_eq!(revealed, 99);
}

#[test]
fn first_reveal_is_safe() {
    // the generator keeps the first click and its neighbours mine-free
    for _ in 0..50 {
        let mut mf = Minefield::new(Parameters::new(10, 10, 30));
        let result = mf.execute(PendingCommand::new(Location::new(5, 5), Action::Reveal));
        assert!(matches!(
            result,
            ExecutionResult::SuccessAndStateChange(_) | ExecutionResult::SuccessNoStateChange(_)
        ));
        assert_eq!(mf.mine_count(), 30);
        for y in 4..=6usize {
            for x in 4..=6usize {
                let state = *mf.fog().get(Location::new(x, y)).unwrap();
                assert!(!matches!(state, State::Exploded));
            }
        }
        assert!(!mf.state().is_loss());
    }
}

#[test]
fn repeated_command_is_rejected() {
    let mut mf = Minefield::new_active_game("ee\nee");
    let first = mf.execute(PendingCommand::new(Location::new(0, 0), Action::Mark));
    assert!(matches!(first, ExecutionResult::SuccessNoStateChange(_)));
    assert_eq!(mf.mark_count(), 1);
    // marking the marked cell again fails and changes nothing
    let second = mf.execute(PendingCommand::new(Location::new(0, 0), Action::Mark));
    assert!(matches!(second, ExecutionResult::Failed));
    assert_eq!(mf.mark_count(), 1);
    // unmark succeeds once, then fails
    let third = mf.execute(PendingCommand::new(Location::new(0, 0), Action::Unmark));
    assert!(matches!(third, ExecutionResult::SuccessNoStateChange(_)));
    let fourth = mf.execute(PendingCommand::new(Location::new(0, 0), Action::Unmark));
    assert!(matches!(fourth, ExecutionResult::Failed));
    assert_eq!(mf.mark_count(), 0);
}

#[test]
fn toggle_mark_is_self_inverse() {
    let mut mf = Minefield::new_active_game("ee\nee");
    let l = Location::new(1, 1);
    mf.execute(PendingCommand::new(l, Action::ToggleMark));
    assert_eq!(*mf.fog().get(l).unwrap(), State::Marked);
    mf.execute(PendingCommand::new(l, Action::ToggleMark));
    assert_eq!(*mf.fog().get(l).unwrap(), State::Hidden);
    assert_eq!(mf.mark_count(), 0);
}

#[test]
fn revealing_a_mine_loses() {
    let mut mf = Minefield::new_active_game("me\nee");
    let result = mf.execute(PendingCommand::new(Location::new(0, 0), Action::Reveal));
    assert!(matches!(result, ExecutionResult::SuccessAndStateChange(_)));
    assert!(mf.state().is_loss());
    assert_eq!(*mf.fog().get(Location::new(0, 0)).unwrap(), State::Exploded);
    mf.reveal_all();
    for y in 0..2 {
        for x in 0..2 {
            let state = *mf.fog().get(Location::new(x, y)).unwrap();
            assert!(matches!(
                state,
                State::Exploded | State::Revealed { .. }
            ));
        }
    }
}

#[test]
fn marking_every_mine_and_revealing_the_rest_wins() {
    let mut mf = Minefield::new_active_game("me\nee");
    mf.execute(PendingCommand::new(Location::new(0, 0), Action::Mark));
    assert!(!mf.state().is_win());
    mf.execute(PendingCommand::new(Location::new(1, 0), Action::Reveal));
    mf.execute(PendingCommand::new(Location::new(0, 1), Action::Reveal));
    assert!(!mf.state().is_win());
    let result = mf.execute(PendingCommand::new(Location::new(1, 1), Action::Reveal));
    assert!(matches!(result, ExecutionResult::SuccessAndStateChange(_)));
    assert!(mf.state().is_win());
    // every cell is now revealed or a marked mine
    assert_eq!(*mf.fog().get(Location::new(0, 0)).unwrap(), State::Marked);
    assert_eq!(
        *mf.fog().get(Location::new(1, 0)).unwrap(),
        State::Revealed { adj_mines: 1 }
    );
    assert_eq!(
        *mf.fog().get(Location::new(0, 1)).unwrap(),
        State::Revealed { adj_mines: 1 }
    );
    assert_eq!(
        *mf.fog().get(Location::new(1, 1)).unwrap(),
        State::Revealed { adj_mines: 1 }
    );
}

#[test]
fn reset_returns_to_a_fresh_board() {
    let mut mf = Minefield::new_active_game("me\nee");
    mf.execute(PendingCommand::new(Location::new(1, 1), Action::Reveal));
    mf.reset();
    assert!(matches!(mf.state(), GameState::Initial { .. }));
    assert_eq!(mf.width(), 2);
    assert_eq!(mf.height(), 2);
    assert_eq!(mf.mark_count(), 0);
    assert_eq!(mf.unobserved_count(), 4);
    for y in 0..2 {
        for x in 0..2 {
            assert_eq!(*mf.fog().get(Location::new(x, y)).unwrap(), State::Hidden);
        }
    }
}

#[test]
fn unreveal_covers_a_cell_back_up() {
    let mut mf = Minefield::new_active_game("me\nee");
    mf.execute(PendingCommand::new(Location::new(1, 1), Action::Reveal));
    assert!(mf.fog().get(Location::new(1, 1)).unwrap().is_revealed());
    let r = mf.unreveal(Location::new(1, 1));
    assert_eq!(r, Some(State::Hidden));
    assert_eq!(*mf.fog().get(Location::new(1, 1)).unwrap(), State::Hidden);
    // marked cells stay marked
    mf.execute(PendingCommand::new(Location::new(0, 0), Action::Mark));
    assert_eq!(mf.unreveal(Location::new(0, 0)), None);
    assert_eq!(*mf.fog().get(Location::new(0, 0)).unwrap(), State::Marked);
}

#[test]
fn out_of_range_commands_fail() {
    let mut mf = Minefield::new_active_game("ee\nee");
    let result = mf.execute(PendingCommand::new(Location::new(5, 5), Action::Reveal));
    assert!(matches!(result, ExecutionResult::Failed));
    let invalid = mf.execute(PendingCommand::new(Location::invalid(), Action::Reveal));
    assert!(matches!(invalid, ExecutionResult::Failed));
}

#[test]
fn observation_counts_match_the_board() {
    let mf = Minefield::new_active_game("mF\nf1");
    assert_eq!(mf.mine_count(), 2);
    assert_eq!(mf.mark_count(), 2);
    // the one hidden cell borders the revealed count, so it is observed
    assert_eq!(mf.unobserved_count(), 0);
    assert_eq!(mf.width(), 2);
    assert_eq!(mf.height(), 2);
}

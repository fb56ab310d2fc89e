use rusty_rattle::controller::{Controller, Key};
use rusty_rattle::model::{CellContent, GameState, Model, Orientation};

fn playing_controller() -> Controller {
    let mut c = Controller::new(Model::new(20, 10));
    c.handle_input(Key::Confirm);
    assert!(matches!(c.game_state(), GameState::Playing));
    c
}

#[test]
fn duplicate_direction_is_buffered_once() {
    let mut c = playing_controller();
    c.handle_input(Key::Left);
    c.handle_input(Key::Left);
    assert_eq!(c.buffered_len(), 1);
}

#[test]
fn distinct_directions_are_buffered_in_turn() {
    let mut c = playing_controller();
    c.handle_input(Key::Left);
    c.handle_input(Key::Down);
    c.handle_input(Key::Down);
    c.handle_input(Key::Left);
    assert_eq!(c.buffered_len(), 3);
}

#[test]
fn directions_are_ignored_outside_a_game() {
    let mut c = Controller::new(Model::new(20, 10));
    c.handle_input(Key::Up);
    c.handle_input(Key::Left);
    assert_eq!(c.buffered_len(), 0);
    assert!(matches!(c.game_state(), GameState::TitleScreen));
}

#[test]
fn confirm_starts_a_game_once() {
    let mut c = Controller::new(Model::new(20, 10));
    assert!(matches!(c.game_state(), GameState::TitleScreen));
    c.handle_input(Key::Confirm);
    assert!(matches!(c.game_state(), GameState::Playing));
    let head = c.model().head_coordinates();
    // confirming again while playing is a no-op
    c.handle_input(Key::Confirm);
    assert_eq!(c.model().head_coordinates(), head);
}

#[test]
fn update_model_consumes_one_buffered_turn() {
    let mut c = playing_controller();
    c.handle_input(Key::Left);
    c.handle_input(Key::Up);
    assert_eq!(c.buffered_len(), 2);
    // the starting head stands at (10, 5) travelling up
    c.update_model();
    assert_eq!(c.buffered_len(), 1);
    assert_eq!(
        c.model().get_cell(9, 5).unwrap(),
        CellContent::Head(Orientation::Left)
    );
    c.update_model();
    assert_eq!(c.buffered_len(), 0);
    assert_eq!(
        c.model().get_cell(9, 4).unwrap(),
        CellContent::Head(Orientation::Up)
    );
    // with the queue empty the snake keeps its direction
    c.update_model();
    assert_eq!(
        c.model().get_cell(9, 3).unwrap(),
        CellContent::Head(Orientation::Up)
    );
}

#[test]
fn update_model_outside_a_game_only_drains_the_queue() {
    let mut c = Controller::new(Model::new(20, 10));
    c.update_model();
    assert!(matches!(c.game_state(), GameState::TitleScreen));
    assert_eq!(c.buffered_len(), 0);
}

#[test]
fn a_buffered_reversal_is_discarded_at_the_tick() {
    let mut c = playing_controller();
    // the head travels up; Down would reverse it and must act like no
    // input at the tick that consumes it
    c.handle_input(Key::Down);
    assert_eq!(c.buffered_len(), 1);
    c.update_model();
    assert_eq!(c.buffered_len(), 0);
    assert_eq!(
        c.model().get_cell(10, 4).unwrap(),
        CellContent::Head(Orientation::Up)
    );
    assert!(matches!(c.game_state(), GameState::Playing));
}

#[test]
fn game_over_through_the_controller() {
    let mut c = playing_controller();
    // drive the snake straight up into the wall: the head starts on row 5
    for _ in 0..6 {
        c.update_model();
    }
    assert!(matches!(c.game_state(), GameState::GameOver));
    // confirming restarts on a fresh board
    c.handle_input(Key::Confirm);
    assert!(matches!(c.game_state(), GameState::Playing));
    assert_eq!(c.model().snake_len(), 4);
    assert_eq!(
        c.model().get_cell(10, 5).unwrap(),
        CellContent::Head(Orientation::Up)
    );
}

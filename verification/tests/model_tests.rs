use rusty_rattle::model::{CellContent, GameState, Model, Orientation};

fn empty_board(width: usize, height: usize) -> Vec<Vec<CellContent>> {
    let mut g = Vec::new();
    for _ in 0..height {
        let mut row = Vec::new();
        for _ in 0..width {
            row.push(CellContent::Empty);
        }
        g.push(row);
    }
    g
}

fn body_up() -> CellContent {
    CellContent::Body {
        towards: Orientation::Up,
        from: Orientation::Up,
    }
}

/// The five-by-five board of the walkthrough scenarios: a four-cell snake
/// pointing up in column 2, with the apple wherever the caller puts it.
fn scenario_board(apple_x: usize, apple_y: usize) -> Vec<Vec<CellContent>> {
    let mut g = empty_board(5, 5);
    g[1][2] = CellContent::Head(Orientation::Up);
    g[2][2] = body_up();
    g[3][2] = body_up();
    g[4][2] = CellContent::Tail(Orientation::Up);
    g[apple_y][apple_x] = CellContent::Apple;
    g
}

fn count_cells(m: &Model, pred: fn(&CellContent) -> bool) -> usize {
    let mut n = 0;
    for y in 0..m.height() {
        for x in 0..m.width() {
            if pred(&m.get_cell(x, y).unwrap()) {
                n += 1;
            }
        }
    }
    n
}

fn is_head(c: &CellContent) -> bool {
    matches!(c, CellContent::Head(_))
}

fn is_tail(c: &CellContent) -> bool {
    matches!(c, CellContent::Tail(_))
}

fn is_apple(c: &CellContent) -> bool {
    matches!(c, CellContent::Apple)
}

fn is_snake(c: &CellContent) -> bool {
    matches!(
        c,
        CellContent::Head(_) | CellContent::Tail(_) | CellContent::Body { .. }
    )
}

fn assert_playing_invariant(m: &Model) {
    assert_eq!(count_cells(m, is_head), 1);
    assert_eq!(count_cells(m, is_tail), 1);
    assert_eq!(count_cells(m, is_apple), 1);
    assert_eq!(count_cells(m, is_snake), m.snake_len());
}

#[test]
fn scenario_three_straight_moves_then_wall() {
    let mut m = Model::from_grid(scenario_board(0, 0)).expect("the scenario board is valid");
    assert!(matches!(m.game_state(), GameState::Playing));
    assert_eq!(m.snake_len(), 4);

    // first move: the front cell (2,0) is empty, so the snake advances
    // without growing and the tail moves from (2,4) to (2,3)
    let state = m.update(None);
    assert!(matches!(state, GameState::Playing));
    assert_eq!(m.get_cell(2, 0).unwrap(), CellContent::Head(Orientation::Up));
    assert_eq!(m.get_cell(2, 1).unwrap(), body_up());
    assert_eq!(m.get_cell(2, 2).unwrap(), body_up());
    assert_eq!(m.get_cell(2, 3).unwrap(), CellContent::Tail(Orientation::Up));
    assert_eq!(m.get_cell(2, 4).unwrap(), CellContent::Empty);
    assert_eq!(m.snake_len(), 4);
    assert_playing_invariant(&m);

    // the head now stands on row 0: the following updates try to move to
    // row -1 and end the game, leaving the board untouched
    let snapshot: Vec<Vec<CellContent>> = (0..5)
        .map(|y| (0..5).map(|x| m.get_cell(x, y).unwrap()).collect())
        .collect();
    for _ in 0..3 {
        let state = m.update(None);
        assert!(matches!(state, GameState::GameOver));
        assert!(matches!(m.game_state(), GameState::GameOver));
        for y in 0..5 {
            for x in 0..5 {
                assert_eq!(m.get_cell(x, y).unwrap(), snapshot[y][x]);
            }
        }
    }
}

#[test]
fn scenario_apple_in_the_path() {
    let mut m = Model::from_grid(scenario_board(2, 0)).expect("the scenario board is valid");
    assert_eq!(m.snake_len(), 4);

    let state = m.update(None);
    assert!(matches!(state, GameState::Playing));
    // the snake grew over the apple: nothing was cleared at the old tail
    assert_eq!(m.snake_len(), 5);
    assert_eq!(m.get_cell(2, 0).unwrap(), CellContent::Head(Orientation::Up));
    assert_eq!(m.get_cell(2, 1).unwrap(), body_up());
    assert_eq!(m.get_cell(2, 4).unwrap(), CellContent::Tail(Orientation::Up));
    // exactly one new apple appeared, on a cell that was empty before
    assert_eq!(count_cells(&m, is_apple), 1);
    for y in 0..5 {
        for x in 0..5 {
            if matches!(m.get_cell(x, y).unwrap(), CellContent::Apple) {
                assert!(!(x == 2 && (1..=4).contains(&y)));
                assert!(!(x == 2 && y == 0));
            }
        }
    }
    assert_playing_invariant(&m);
}

#[test]
fn wall_collision_up_from_row_zero() {
    let mut g = empty_board(5, 5);
    g[0][2] = CellContent::Head(Orientation::Up);
    g[1][2] = body_up();
    g[2][2] = body_up();
    g[3][2] = CellContent::Tail(Orientation::Up);
    g[4][0] = CellContent::Apple;
    let mut m = Model::from_grid(g).expect("head on the top row is a valid board");
    let state = m.update(Some(Orientation::Up));
    assert!(matches!(state, GameState::GameOver));
    // the collision left the board as it stood
    assert_eq!(m.get_cell(2, 0).unwrap(), CellContent::Head(Orientation::Up));
    assert_eq!(m.snake_len(), 4);
}

#[test]
fn wall_collision_left_from_column_zero() {
    let mut g = empty_board(5, 5);
    g[2][0] = CellContent::Head(Orientation::Left);
    g[2][1] = CellContent::Body {
        towards: Orientation::Left,
        from: Orientation::Left,
    };
    g[2][2] = CellContent::Body {
        towards: Orientation::Left,
        from: Orientation::Left,
    };
    g[2][3] = CellContent::Tail(Orientation::Left);
    g[4][4] = CellContent::Apple;
    let mut m = Model::from_grid(g).expect("head on the left column is a valid board");
    let state = m.update(None);
    assert!(matches!(state, GameState::GameOver));
}

#[test]
fn reversal_input_acts_like_no_input() {
    let mut a = Model::from_grid(scenario_board(0, 0)).unwrap();
    let mut b = Model::from_grid(scenario_board(0, 0)).unwrap();
    // the head travels up; Down is the opposite direction
    let ra = a.update(Some(Orientation::Down));
    let rb = b.update(None);
    assert_eq!(ra, rb);
    for y in 0..5 {
        for x in 0..5 {
            assert_eq!(a.get_cell(x, y).unwrap(), b.get_cell(x, y).unwrap());
        }
    }
    assert_eq!(a.snake_len(), b.snake_len());
}

#[test]
fn self_collision_ends_the_game() {
    // the snake curls into a hook; turning left runs into its own body
    let mut g = empty_board(5, 5);
    g[1][1] = CellContent::Tail(Orientation::Right);
    g[1][2] = CellContent::Body {
        towards: Orientation::Right,
        from: Orientation::Right,
    };
    g[1][3] = CellContent::Body {
        towards: Orientation::Down,
        from: Orientation::Right,
    };
    g[2][3] = CellContent::Body {
        towards: Orientation::Down,
        from: Orientation::Down,
    };
    g[3][3] = CellContent::Body {
        towards: Orientation::Left,
        from: Orientation::Down,
    };
    g[3][2] = CellContent::Head(Orientation::Left);
    g[0][0] = CellContent::Apple;
    let mut m = Model::from_grid(g).expect("the hook is a valid board");
    assert_eq!(m.snake_len(), 6);
    // turning up from (3,2) hits the body at (2,2)? no: (2,2) is empty,
    // so steer up and then right into the descending body column
    let state = m.update(Some(Orientation::Up));
    assert!(matches!(state, GameState::Playing));
    let state = m.update(Some(Orientation::Right));
    assert!(matches!(state, GameState::GameOver));
}

#[test]
fn stepping_onto_the_vacating_tail_is_not_a_collision() {
    // a four-cell snake curled into a square: the head can chase the
    // tail into the cell the tail is just leaving
    let mut g = empty_board(4, 4);
    g[1][1] = CellContent::Tail(Orientation::Right);
    g[1][2] = CellContent::Body {
        towards: Orientation::Down,
        from: Orientation::Right,
    };
    g[2][2] = CellContent::Body {
        towards: Orientation::Left,
        from: Orientation::Down,
    };
    g[2][1] = CellContent::Head(Orientation::Left);
    g[0][0] = CellContent::Apple;
    let mut m = Model::from_grid(g).expect("the curled snake is a valid board");
    assert_eq!(m.snake_len(), 4);

    let state = m.update(Some(Orientation::Up));
    assert!(matches!(state, GameState::Playing));
    assert_eq!(m.get_cell(1, 1).unwrap(), CellContent::Head(Orientation::Up));
    assert_eq!(m.get_cell(2, 1).unwrap(), CellContent::Tail(Orientation::Down));
    assert_eq!(m.snake_len(), 4);
    assert_playing_invariant(&m);
}

#[test]
fn snake_walk_recovers_the_chain() {
    let m = Model::from_grid(scenario_board(0, 0)).unwrap();
    let coords = m.snake_coordinates();
    assert_eq!(coords, vec![(2, 4), (2, 3), (2, 2), (2, 1)]);
    assert_eq!(m.head_coordinates(), (2, 1));
    assert_eq!(m.tail_coordinates(), (2, 4));
}

#[test]
fn start_game_lays_out_the_fixed_shape() {
    let mut m = Model::new(20, 10);
    assert!(matches!(m.game_state(), GameState::TitleScreen));
    m.start_game();
    assert!(matches!(m.game_state(), GameState::Playing));
    assert_eq!(m.snake_len(), 4);
    assert_eq!(m.get_cell(10, 5).unwrap(), CellContent::Head(Orientation::Up));
    assert_eq!(m.get_cell(10, 6).unwrap(), body_up());
    assert_eq!(m.get_cell(10, 7).unwrap(), body_up());
    assert_eq!(m.get_cell(10, 8).unwrap(), CellContent::Tail(Orientation::Up));
    assert_eq!(m.get_cell(9, 7).unwrap(), CellContent::Apple);
    assert_playing_invariant(&m);

    // starting again while playing changes nothing
    m.update(None);
    let head_before = m.head_coordinates();
    m.start_game();
    assert_eq!(m.head_coordinates(), head_before);
}

#[test]
fn restart_after_game_over_resets_the_board() {
    let mut m = Model::new(8, 8);
    m.start_game();
    // drive the snake straight up into the wall
    for _ in 0..5 {
        m.update(None);
    }
    assert!(matches!(m.game_state(), GameState::GameOver));
    m.start_game();
    assert!(matches!(m.game_state(), GameState::Playing));
    assert_eq!(m.snake_len(), 4);
    assert_eq!(m.get_cell(4, 4).unwrap(), CellContent::Head(Orientation::Up));
    assert_playing_invariant(&m);
}

#[test]
fn playing_invariant_holds_along_a_run() {
    let mut m = Model::new(8, 8);
    m.start_game();
    assert_playing_invariant(&m);
    let turns = [
        Some(Orientation::Left),
        None,
        Some(Orientation::Down),
        Some(Orientation::Right),
        None,
    ];
    for t in turns {
        if matches!(m.game_state(), GameState::Playing) {
            m.update(t);
            if matches!(m.game_state(), GameState::Playing) {
                assert_playing_invariant(&m);
            }
        }
    }
}

#[test]
fn from_grid_rejects_bad_boards() {
    // no rows at all
    assert!(Model::from_grid(Vec::new()).is_none());
    // ragged rows
    let mut g = scenario_board(0, 0);
    g[3].pop();
    assert!(Model::from_grid(g).is_none());
    // no apple
    let mut g = scenario_board(0, 0);
    g[0][0] = CellContent::Empty;
    assert!(Model::from_grid(g).is_none());
    // two apples
    let mut g = scenario_board(0, 0);
    g[4][4] = CellContent::Apple;
    assert!(Model::from_grid(g).is_none());
    // no tail
    let mut g = scenario_board(0, 0);
    g[4][2] = CellContent::Empty;
    assert!(Model::from_grid(g).is_none());
    // a snake of two cells has no body to promote to a tail
    let mut g = empty_board(5, 5);
    g[2][2] = CellContent::Tail(Orientation::Up);
    g[1][2] = CellContent::Head(Orientation::Up);
    g[0][0] = CellContent::Apple;
    assert!(Model::from_grid(g).is_none());
    // a stray body segment off the chain
    let mut g = scenario_board(0, 0);
    g[4][4] = body_up();
    assert!(Model::from_grid(g).is_none());
    // the tail points straight off the board
    let mut g = scenario_board(0, 0);
    g[4][2] = CellContent::Tail(Orientation::Down);
    assert!(Model::from_grid(g).is_none());
    // the chain breaks: the cell after the tail is empty
    let mut g = scenario_board(0, 0);
    g[3][2] = CellContent::Empty;
    assert!(Model::from_grid(g).is_none());
    // mismatched from-tags break the chain
    let mut g = scenario_board(0, 0);
    g[2][2] = CellContent::Body {
        towards: Orientation::Up,
        from: Orientation::Left,
    };
    assert!(Model::from_grid(g).is_none());
}

#[test]
fn is_opposite_pairs() {
    assert!(Orientation::Up.is_opposite(Orientation::Down));
    assert!(Orientation::Down.is_opposite(Orientation::Up));
    assert!(Orientation::Left.is_opposite(Orientation::Right));
    assert!(Orientation::Right.is_opposite(Orientation::Left));
    assert!(!Orientation::Up.is_opposite(Orientation::Up));
    assert!(!Orientation::Up.is_opposite(Orientation::Left));
    assert!(!Orientation::Right.is_opposite(Orientation::Down));
}

#[test]
fn all_variants_lists_every_drawable_cell() {
    let v = CellContent::all_variants();
    assert_eq!(v.len(), 26);
    assert_eq!(v[0], CellContent::Apple);
    assert_eq!(v[1], CellContent::Empty);
    assert_eq!(v[2], CellContent::Head(Orientation::Up));
    assert_eq!(v[25], CellContent::Body {
        towards: Orientation::Left,
        from: Orientation::Left,
    });
}

#[test]
fn get_cell_outside_the_board_is_none() {
    let m = Model::new(8, 8);
    assert!(m.get_cell(8, 0).is_none());
    assert!(m.get_cell(0, 8).is_none());
    assert!(m.get_cell(0, 0).is_some());
}

use boggle::snake::{Direction, Game, GameState, Snake};

fn snake(body: Vec<(i32, i32)>, d: Direction) -> Snake {
    Snake { body, direction: d, attempted_direction: d }
}

#[test]
fn update_moves_head_and_frees_tail() {
    let mut s = snake(vec![(1, 0), (0, 0)], Direction::Right);
    let tail = s.update();
    assert_eq!(tail, (0, 0));
    assert_eq!(s.body, vec![(2, 0), (1, 0)]);
    assert_eq!(*s.get_head(), (2, 0));
    s.attempted_direction = Direction::Down;
    let tail = s.update();
    assert_eq!(tail, (1, 0));
    assert_eq!(s.body, vec![(2, 1), (2, 0)]);
    assert_eq!(s.direction, Direction::Down);
    s.attempted_direction = Direction::Left;
    s.update();
    assert_eq!(*s.get_head(), (1, 1));
    s.attempted_direction = Direction::Up;
    s.update();
    assert_eq!(*s.get_head(), (1, 0));
}

#[test]
fn single_square_snake_moves() {
    let mut s = snake(vec![(5, 5)], Direction::Up);
    assert_eq!(s.update(), (5, 5));
    assert_eq!(s.body, vec![(5, 4)]);
}

#[test]
fn steering_refuses_reversal() {
    let mut s = snake(vec![(1, 0), (0, 0)], Direction::Right);
    s.steer(Some(Direction::Left));
    assert_eq!(s.attempted_direction, Direction::Right);
    s.steer(Some(Direction::Up));
    assert_eq!(s.attempted_direction, Direction::Up);
    s.steer(None);
    assert_eq!(s.attempted_direction, Direction::Right);
    s.steer(Some(Direction::Down));
    assert_eq!(s.attempted_direction, Direction::Down);
}

#[test]
fn collisions_end_the_game() {
    let mut state = GameState::Playing;
    snake(vec![(0, 0), (1, 0)], Direction::Left).check_collisions(&mut state, 4);
    assert_eq!(state, GameState::Playing);
    snake(vec![(-1, 0), (0, 0)], Direction::Left).check_collisions(&mut state, 4);
    assert_eq!(state, GameState::GameEnd);
    let mut state = GameState::Playing;
    snake(vec![(4, 2)], Direction::Right).check_collisions(&mut state, 4);
    assert_eq!(state, GameState::GameEnd);
    let mut state = GameState::Playing;
    snake(vec![(2, 2), (2, 3), (3, 3), (3, 2), (2, 2)], Direction::Up).check_collisions(&mut state, 4);
    assert_eq!(state, GameState::GameEnd);
    let mut state = GameState::Playing;
    snake(vec![(3, 3), (2, 3)], Direction::Down).check_collisions(&mut state, 4);
    assert_eq!(state, GameState::Playing);
}

#[test]
fn eating_grows_and_moves_food() {
    let mut g = Game::new(40, snake(vec![(1, 0), (0, 0)], Direction::Right), (2, 0));
    g.update();
    assert_eq!(g.state, GameState::Playing);
    assert_eq!(g.snake.body, vec![(2, 0), (1, 0), (0, 0)]);
    assert!(0 <= g.food.0 && g.food.0 < 40);
    assert!(0 <= g.food.1 && g.food.1 < 40);
}

#[test]
fn food_stays_in_bounds_on_a_tiny_board() {
    for _ in 0..20 {
        let mut g = Game::new(2, snake(vec![(0, 0)], Direction::Down), (0, 1));
        g.update();
        assert_eq!(g.state, GameState::Playing);
        assert_eq!(g.snake.body, vec![(0, 1), (0, 0)]);
        assert!(g.food.0 >= 0 && g.food.0 < 2 && g.food.1 >= 0 && g.food.1 < 2);
    }
}

#[test]
fn tick_reports_eating() {
    let mut g = Game::new(10, snake(vec![(1, 0), (0, 0)], Direction::Right), (5, 5));
    assert!(!g.tick());
    assert_eq!(g.snake.body, vec![(2, 0), (1, 0)]);
    g.food = (3, 0);
    assert!(g.tick());
    assert_eq!(g.snake.body, vec![(3, 0), (2, 0), (1, 0)]);
    assert_eq!(g.food, (3, 0));
}

#[test]
fn ended_game_does_not_move() {
    let mut g = Game::new(3, snake(vec![(2, 0)], Direction::Right), (0, 2));
    g.update();
    assert_eq!(g.state, GameState::GameEnd);
    let body = g.snake.body.clone();
    g.update();
    assert!(!g.tick());
    assert_eq!(g.snake.body, body);
    assert_eq!(g.food, (0, 2));
}

#[test]
fn update_at_the_far_edge_of_i32() {
    let mut s = snake(vec![(5, i32::MAX)], Direction::Right);
    assert_eq!(s.update(), (5, i32::MAX));
    assert_eq!(s.body, vec![(6, i32::MAX)]);
    let mut s = snake(vec![(i32::MIN, 0)], Direction::Down);
    s.update();
    assert_eq!(s.body, vec![(i32::MIN, 1)]);
}

use snake::codec::parse_highscores;
use snake::entities::{Apple, Snake};
use snake::game::{GamePage, GameState};
use snake::grid::{Direction, Key, Point};
use snake::score::ScoreBoard;
use snake::{RECT_SIZE, SCREEN_SIZE};

fn apple_at(x: u32, y: u32) -> Apple {
    Apple {
        x,
        y,
        img_name: "apple.png",
    }
}

fn playing_state() -> GameState {
    let mut g = GameState::new();
    g.apple = apple_at(0, 0);
    g
}

#[test]
fn new_game_starts_at_the_center() {
    let g = GameState::new();
    assert_eq!(g.game_page, GamePage::GameOn);
    assert_eq!(g.snake.body, vec![Point { x: 400, y: 400 }]);
    assert!(g.snake.direction.is_none());
    assert_eq!(g.score.score, 0);
    assert!(g.apple.x <= SCREEN_SIZE - RECT_SIZE && g.apple.x % RECT_SIZE == 0);
    assert!(g.apple.y <= SCREEN_SIZE - RECT_SIZE && g.apple.y % RECT_SIZE == 0);
    assert_eq!(g.apple.img_name, "apple.png");
}

#[test]
fn idle_without_direction() {
    let mut g = playing_state();
    let saved = g.update();
    assert!(saved.is_none());
    assert_eq!(g.snake.body, vec![Point { x: 400, y: 400 }]);
    assert_eq!(g.score.score, 0);
    assert_eq!(g.game_page, GamePage::GameOn);
}

#[test]
fn one_tick_moves_without_growing() {
    let mut g = playing_state();
    g.snake.direction = Some(Direction::Up);
    let saved = g.update();
    assert!(saved.is_none());
    assert_eq!(g.snake.body, vec![Point { x: 400, y: 360 }]);
    assert_eq!(g.score.score, 0);
    assert_eq!(g.game_page, GamePage::GameOn);
}

#[test]
fn eating_the_apple_grows_and_scores() {
    let mut g = playing_state();
    g.snake.body = vec![Point { x: 400, y: 440 }];
    g.snake.direction = Some(Direction::Up);
    g.apple = apple_at(400, 400);
    let saved = g.update();
    assert!(saved.is_none());
    assert_eq!(
        g.snake.body,
        vec![Point { x: 400, y: 400 }, Point { x: 400, y: 440 }]
    );
    assert_eq!(g.score.score, 1);
    assert_eq!(g.game_page, GamePage::GameOn);
    assert!(g.apple.x <= SCREEN_SIZE - RECT_SIZE && g.apple.x % RECT_SIZE == 0);
    assert!(g.apple.y <= SCREEN_SIZE - RECT_SIZE && g.apple.y % RECT_SIZE == 0);
}

#[test]
fn single_segment_never_collides() {
    let snake = Snake::new();
    assert!(!snake.ate_itself());
}

#[test]
fn overlapping_segments_collide() {
    let mut snake = Snake::new();
    snake.body = vec![Point { x: 400, y: 400 }, Point { x: 400, y: 400 }];
    assert!(snake.ate_itself());
}

#[test]
fn adjacent_segments_do_not_collide() {
    let mut snake = Snake::new();
    snake.body = vec![Point { x: 0, y: 0 }, Point { x: 40, y: 0 }];
    assert!(!snake.ate_itself());
}

#[test]
fn collision_with_empty_table_saves_a_high_score() {
    let mut g = playing_state();
    g.snake.body = vec![Point { x: 400, y: 400 }, Point { x: 400, y: 400 }];
    g.snake.direction = Some(Direction::Right);
    let saved = g.update();
    assert_eq!(g.game_page, GamePage::LeaderBoard);
    let stored = saved.expect("a high score must be persisted");
    let reloaded = parse_highscores(&stored).unwrap();
    assert_eq!(reloaded.len(), 1);
    assert_eq!(reloaded[0].1, 0);
    assert_eq!(reloaded, g.score.highscores);
}

#[test]
fn collision_without_high_score_goes_to_menu() {
    let mut g = playing_state();
    g.snake.body = vec![Point { x: 400, y: 400 }, Point { x: 400, y: 400 }];
    g.snake.direction = Some(Direction::Right);
    g.score = ScoreBoard::with_table(vec![(String::from("earlier"), 10)]);
    let saved = g.update();
    assert!(saved.is_none());
    assert_eq!(g.game_page, GamePage::Menu);
    assert_eq!(g.score.highscores, vec![(String::from("earlier"), 10)]);
}

#[test]
fn quit_keys_ask_to_quit() {
    let mut g = playing_state();
    assert!(g.key_down_event(Key::Q));
    assert!(g.key_down_event(Key::Escape));
    assert!(!g.key_down_event(Key::Other));
}

#[test]
fn arrows_set_the_direction_while_playing() {
    let mut g = playing_state();
    assert!(!g.key_down_event(Key::Left));
    assert_eq!(g.snake.direction, Some(Direction::Left));
    g.key_down_event(Key::Down);
    assert_eq!(g.snake.direction, Some(Direction::Down));
}

#[test]
fn page_transitions_follow_the_keys() {
    let mut g = playing_state();
    g.key_down_event(Key::M);
    assert_eq!(g.game_page, GamePage::Menu);
    g.key_down_event(Key::S);
    assert_eq!(g.game_page, GamePage::LeaderBoard);
    g.key_down_event(Key::M);
    assert_eq!(g.game_page, GamePage::Menu);
    g.key_down_event(Key::Other);
    assert_eq!(g.game_page, GamePage::Menu);
}

#[test]
fn restart_keeps_the_table_and_resets_the_run() {
    let mut g = playing_state();
    g.score = ScoreBoard::with_table(vec![(String::from("earlier"), 10)]);
    g.score.score = 4;
    g.snake.direction = Some(Direction::Up);
    g.game_page = GamePage::Menu;
    g.key_down_event(Key::R);
    assert_eq!(g.game_page, GamePage::GameOn);
    assert_eq!(g.snake.body, vec![Point { x: 400, y: 400 }]);
    assert!(g.snake.direction.is_none());
    assert_eq!(g.score.score, 0);
    assert_eq!(g.score.highscores, vec![(String::from("earlier"), 10)]);
}

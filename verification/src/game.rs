//! The game itself: the page the player is on, the entities of the current
//! run, and one simulation tick. A tick checks the pre-move head against
//! the body, records a high score on collision, steps the head one cell,
//! and either eats the apple (growing by one and raising the score) or
//! drops the tail.

use vstd::prelude::*;
use crate::RECT_SIZE;
use crate::codec::{json_of, plain_label};
use crate::entities::{overlap_closed, Apple, Img, Snake};
use crate::grid::{key_direction, moved, Direction, Key, Point};
use crate::score::{recorded, ScoreBoard};

verus! {

/// The top-level page the player sees.
#[derive(Debug, Clone, Copy, PartialEq, Eq, Structural)]
pub enum GamePage {
    Menu,
    GameOn,
    LeaderBoard,
}

/// The whole state of the game: the page, the entities of the current run,
/// and the score board.
pub struct GameState {
    pub game_page: GamePage,
    pub snake: Snake,
    pub apple: Apple,
    pub score: ScoreBoard,
}

/// `n` is `o` reset for a new run: back on the playing page with a fresh
/// one-segment snake, some freshly placed apple, and the score at zero,
/// while the stored high-score table is kept.
pub open spec fn reset_of(o: GameState, n: GameState) -> bool {
    &&& n.game_page == GamePage::GameOn
    &&& n.snake.body@ == seq![Point { x: 400u32, y: 400u32 }]
    &&& n.snake.direction is None
    &&& n.snake.img == Img::spec_default()
    &&& n.apple.wf()
    &&& n.score.score == 0
    &&& n.score.highscores == o.score.highscores
}

/// `n` is `o` with only the page changed to `page`.
pub open spec fn page_changed(o: GameState, n: GameState, page: GamePage) -> bool {
    &&& n.game_page == page
    &&& n.snake.body == o.snake.body
    &&& n.snake.direction == o.snake.direction
    &&& n.snake.img == o.snake.img
    &&& n.apple == o.apple
    &&& n.score == o.score
}

/// The body after one tick: the moved head is put in front, and the tail
/// is dropped unless the apple was eaten.
pub open spec fn tick_body(body: Seq<Point>, h1: Point, ate: bool) -> Seq<Point> {
    if ate {
        seq![h1] + body
    } else {
        (seq![h1] + body).drop_last()
    }
}

/// `n` is `o` with only the snake's pending direction set to `d`.
pub open spec fn direction_set(o: GameState, n: GameState, d: Direction) -> bool {
    &&& n.game_page == o.game_page
    &&& n.snake.body == o.snake.body
    &&& n.snake.direction == Some(d)
    &&& n.snake.img == o.snake.img
    &&& n.apple == o.apple
    &&& n.score == o.score
}

impl GameState {
    /// Every entity is on the playfield and the table is well formed.
    pub open spec fn wf(self) -> bool {
        &&& self.snake.wf()
        &&& self.apple.wf()
        &&& self.score.wf()
    }

    /// A fresh game on the playing page: a one-segment snake at the
    /// centre, a randomly placed apple, and an empty score board. The
    /// caller loads any persisted table and installs it on `score`.
    pub fn new() -> (g: GameState)
        ensures
            g.wf(),
            g.game_page == GamePage::GameOn,
            g.snake.body@ == seq![Point { x: 400u32, y: 400u32 }],
            g.snake.direction is None,
            g.score.score == 0,
            g.score.table().len() == 0,
    {
        GameState {
            game_page: GamePage::GameOn,
            snake: Snake::new(),
            apple: Apple::new(),
            score: ScoreBoard::new(),
        }
    }

    /// Starts a new run: fresh snake and apple, score back to zero, the
    /// stored high-score table kept.
    pub fn reset(&mut self)
        ensures
            reset_of(*old(self), *final(self)),
            old(self).score.wf() ==> final(self).wf(),
    {
        self.game_page = GamePage::GameOn;
        self.snake = Snake::new();
        self.apple = Apple::new();
        self.score.reset_score();
    }

    /// One simulation tick. While no direction is set the engine idles.
    /// Otherwise: if the pre-move head overlaps a later body segment, a
    /// beaten table records the score (the rendered table to persist is
    /// handed back) and the game goes to the leaderboard, a table not
    /// beaten sends it to the menu; then the head steps one cell with
    /// wraparound; an apple within reach is eaten, raising the score and
    /// growing the body by one, else the tail is dropped.
    pub fn update(&mut self) -> (saved: Option<String>)
        requires
            old(self).wf(),
            old(self).score.score < u32::MAX,
        ensures
            old(self).snake.direction is None ==> *final(self) == *old(self) && saved is None,
            old(self).snake.direction matches Some(d) ==> ({
                let o = *old(self);
                let collided = o.snake.self_collision();
                let high = collided && o.score.spec_is_highscore();
                let h1 = moved(o.snake.body@[0], d);
                let ate = overlap_closed(h1, o.apple.pos());
                &&& final(self).game_page == (if collided {
                    if high {
                        GamePage::LeaderBoard
                    } else {
                        GamePage::Menu
                    }
                } else {
                    o.game_page
                })
                &&& final(self).snake.direction == o.snake.direction
                &&& final(self).snake.img == o.snake.img
                &&& final(self).snake.body@ == tick_body(o.snake.body@, h1, ate)
                &&& (ate ==> final(self).score.score == o.score.score + 1
                    && final(self).apple.wf())
                &&& (!ate ==> final(self).score.score == o.score.score && final(self).apple
                    == o.apple)
                &&& (high ==> exists|label: Seq<char>|
                    plain_label(label) && #[trigger] recorded(
                        o.score.table(),
                        label,
                        o.score.score,
                        final(self).score.table(),
                    ))
                &&& (!high ==> final(self).score.table() == o.score.table())
                &&& (high <==> saved is Some)
                &&& (saved matches Some(j) ==> j@ == json_of(final(self).score.table()))
                &&& final(self).wf()
            }),
    {
        let mut saved: Option<String> = None;
        let ghost mut t_mid: Seq<(Seq<char>, u32)> = self.score.table();
        if let Some(direction) = self.snake.direction {
            // Check whether the snake ate itself.
            if self.snake.ate_itself() {
                if self.score.is_highscore() {
                    let json = self.score.insert_highscore();
                    saved = Some(json);
                    self.game_page = GamePage::LeaderBoard;
                    proof {
                        t_mid = self.score.table();
                    }
                } else {
                    self.game_page = GamePage::Menu;
                }
            }
            // Move the head.
            let mut head = self.snake.body[0];
            head.update(direction);
            self.snake.body.insert(0, head);
            proof {
                assert(self.snake.body@ =~= seq![head] + old(self).snake.body@);
            }
            // Check whether the snake ate the apple.
            if head.x + RECT_SIZE >= self.apple.x && head.x <= self.apple.x + RECT_SIZE
                && head.y + RECT_SIZE >= self.apple.y && head.y <= self.apple.y + RECT_SIZE {
                self.apple = Apple::new();
                self.score.increase();
            } else {
                let _ = self.snake.body.pop();
                proof {
                    assert(self.snake.body@ =~= (seq![head]
                        + old(self).snake.body@).drop_last());
                }
            }
        }
        proof {
            let o = *old(self);
            if o.snake.direction is Some && o.snake.self_collision()
                && o.score.spec_is_highscore() {
                assert(self.score.table() == t_mid);
                let label = choose|l: Seq<char>|
                    plain_label(l) && #[trigger] recorded(
                        o.score.table(),
                        l,
                        o.score.score,
                        t_mid,
                    );
                assert(plain_label(label) && recorded(
                    o.score.table(),
                    label,
                    o.score.score,
                    self.score.table(),
                ));
            }
        }
        saved
    }

    /// Applies one key: `Q` or `Escape` asks the caller to quit (on top of
    /// any page effect); on the menu `R` restarts and `S` shows the
    /// leaderboard; while playing `M` and `S` switch pages and an arrow
    /// sets the snake's direction; on the leaderboard `M` returns to the
    /// menu and `R` restarts. Every other key leaves the state unchanged.
    pub fn key_down_event(&mut self, key: Key) -> (quit: bool)
        ensures
            quit == (key == Key::Q || key == Key::Escape),
            match old(self).game_page {
                GamePage::Menu => match key {
                    Key::R => reset_of(*old(self), *final(self)),
                    Key::S => page_changed(*old(self), *final(self), GamePage::LeaderBoard),
                    _ => *final(self) == *old(self),
                },
                GamePage::GameOn => match key {
                    Key::M => page_changed(*old(self), *final(self), GamePage::Menu),
                    Key::S => page_changed(*old(self), *final(self), GamePage::LeaderBoard),
                    _ => match key_direction(key) {
                        Some(d) => direction_set(*old(self), *final(self), d),
                        None => *final(self) == *old(self),
                    },
                },
                GamePage::LeaderBoard => match key {
                    Key::M => page_changed(*old(self), *final(self), GamePage::Menu),
                    Key::R => reset_of(*old(self), *final(self)),
                    _ => *final(self) == *old(self),
                },
            },
            old(self).wf() ==> final(self).wf(),
    {
        let quit = match key {
            Key::Q | Key::Escape => true,
            _ => false,
        };
        match self.game_page {
            GamePage::Menu => match key {
                Key::R => self.reset(),
                Key::S => self.game_page = GamePage::LeaderBoard,
                _ => {},
            },
            GamePage::GameOn => match key {
                Key::M => self.game_page = GamePage::Menu,
                Key::S => self.game_page = GamePage::LeaderBoard,
                _ => match Direction::try_from(key) {
                    Ok(direction) => self.snake.direction = Some(direction),
                    Err(_) => {},
                },
            },
            GamePage::LeaderBoard => match key {
                Key::M => self.game_page = GamePage::Menu,
                Key::R => self.reset(),
                _ => {},
            },
        }
        quit
    }
}

/// One tick changes the body length by exactly the apple rule: the body
/// after the move grows by one when the apple is eaten and keeps its
/// length when it is not, for every body the tick can act on (one segment
/// or more).
pub proof fn lemma_tick_body_length(body: Seq<Point>, h1: Point, ate: bool)
    requires
        body.len() >= 1,
    ensures
        ate ==> tick_body(body, h1, ate).len() == body.len() + 1,
        !ate ==> tick_body(body, h1, ate).len() == body.len(),
{
}

} // verus!

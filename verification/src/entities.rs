//! The moving entities of the game: the snake, the apple it hunts, and the
//! sprite identities the renderer draws them with. Collision is tested at
//! cell granularity by axis-aligned overlap of cell-sized squares.

use vstd::prelude::*;
use crate::{RECT_SIZE, SCREEN_SIZE};
use crate::grid::{Direction, Point};

verus! {

/// The logical sprite identities for the snake's head, one per facing.
#[derive(Debug, Clone, Copy)]
pub struct Img {
    pub img: &'static str,
    pub img_90: &'static str,
    pub img_180: &'static str,
    pub img_270: &'static str,
}

impl Img {
    /// The sprite set every snake is drawn with.
    pub open spec fn spec_default() -> Img {
        Img {
            img: "snake.png",
            img_90: "snake_90.png",
            img_180: "snake_180.png",
            img_270: "snake_270.png",
        }
    }

    /// The sprite set of the snake's head.
    pub fn new() -> (r: Img)
        ensures
            r == Img::spec_default(),
    {
        Img {
            img: "snake.png",
            img_90: "snake_90.png",
            img_180: "snake_180.png",
            img_270: "snake_270.png",
        }
    }
}

/// Two cell-sized squares at `a` and `b` overlap with positive area.
/// For grid-aligned positions this is exactly equality of cells.
pub open spec fn overlap_open(a: Point, b: Point) -> bool {
    &&& a.x + RECT_SIZE > b.x
    &&& a.x < b.x + RECT_SIZE
    &&& a.y + RECT_SIZE > b.y
    &&& a.y < b.y + RECT_SIZE
}

/// Two cell-sized squares at `a` and `b` touch or overlap: each coordinate
/// pair differs by at most one cell. This is the (lenient) test the game
/// applies between the snake's head and the apple.
pub open spec fn overlap_closed(a: Point, b: Point) -> bool {
    &&& a.x + RECT_SIZE >= b.x
    &&& a.x <= b.x + RECT_SIZE
    &&& a.y + RECT_SIZE >= b.y
    &&& a.y <= b.y + RECT_SIZE
}

/// For grid-aligned positions, positive-area overlap of two cells is the
/// same as the cells being equal.
pub proof fn lemma_overlap_open_is_eq(a: Point, b: Point)
    requires
        a.wf(),
        b.wf(),
    ensures
        overlap_open(a, b) <==> a == b,
{
    if overlap_open(a, b) {
        assert(a.x == b.x) by {
            assert(a.x % RECT_SIZE == 0 && b.x % RECT_SIZE == 0);
        };
        assert(a.y == b.y) by {
            assert(a.y % RECT_SIZE == 0 && b.y % RECT_SIZE == 0);
        };
        assert(a =~= b);
    }
}

/// Relies on `rand::Rng::gen_range` on a `rand::thread_rng()` generator:
/// a sample from a non-empty half-open integer range lies in that range.
/// The sample is random, so nothing more is promised of it.
#[verifier::external_body]
fn random_below(n: u32) -> (r: u32)
    requires
        n > 0,
    ensures
        r < n,
{
    <rand::rngs::ThreadRng as rand::Rng>::gen_range(&mut rand::thread_rng(), 0..n)
}

/// The food item: a grid position together with its sprite identity.
#[derive(Debug, Clone, Copy)]
pub struct Apple {
    pub x: u32,
    pub y: u32,
    pub img_name: &'static str,
}

impl Apple {
    /// The apple sits on the cell grid, wholly on the playfield.
    pub open spec fn wf(self) -> bool {
        &&& self.x <= SCREEN_SIZE - RECT_SIZE
        &&& self.y <= SCREEN_SIZE - RECT_SIZE
        &&& self.x % RECT_SIZE == 0
        &&& self.y % RECT_SIZE == 0
    }

    /// The apple's grid position.
    pub open spec fn pos(self) -> Point {
        Point { x: self.x, y: self.y }
    }

    /// Places the apple on a random cell of the playfield. The cell is not
    /// guaranteed to avoid the snake's body.
    pub fn new() -> (a: Apple)
        ensures
            a.wf(),
            a.img_name == "apple.png",
    {
        let cells: u32 = SCREEN_SIZE / RECT_SIZE;
        let cx = random_below(cells);
        let cy = random_below(cells);
        Apple { x: cx * RECT_SIZE, y: cy * RECT_SIZE, img_name: "apple.png" }
    }
}

/// The snake: its body cells (head first), the direction it will move in
/// next (unset until the first input), and its sprite set.
pub struct Snake {
    pub body: Vec<Point>,
    pub direction: Option<Direction>,
    pub img: Img,
}

impl Snake {
    /// The body is never empty and every segment lies on the playfield.
    pub open spec fn wf(self) -> bool {
        &&& self.body@.len() >= 1
        &&& forall|i: int| 0 <= i < self.body@.len() ==> (#[trigger] self.body@[i]).x
            < SCREEN_SIZE && self.body@[i].y < SCREEN_SIZE
    }

    /// A one-segment snake at the centre of the playfield, not yet moving.
    pub fn new() -> (s: Snake)
        ensures
            s.wf(),
            s.body@ =~= seq![Point { x: 400u32, y: 400u32 }],
            s.direction is None,
            s.img == Img::spec_default(),
    {
        Snake { body: vec![Point::new()], direction: None, img: Img::new() }
    }

    /// The head (before this tick's move) overlaps some later body segment.
    pub open spec fn self_collision(self) -> bool {
        exists|i: int|
            1 <= i < self.body@.len() && overlap_open(self.body@[0], self.body@[i])
    }

    /// Tests the head cell against every other body cell for overlap.
    pub fn ate_itself(&self) -> (r: bool)
        requires
            self.wf(),
        ensures
            r == self.self_collision(),
    {
        let head = self.body[0];
        let mut i: usize = 1;
        while i < self.body.len()
            invariant
                1 <= i <= self.body@.len(),
                self.wf(),
                head == self.body@[0],
                forall|j: int| 1 <= j < i ==> !overlap_open(self.body@[0], #[trigger] self.body@[j]),
            decreases self.body@.len() - i,
        {
            let p = self.body[i];
            if head.x + RECT_SIZE > p.x && head.x < p.x + RECT_SIZE && head.y + RECT_SIZE > p.y
                && head.y < p.y + RECT_SIZE {
                proof {
                    assert(overlap_open(self.body@[0], self.body@[i as int]));
                }
                return true;
            }
            i = i + 1;
        }
        false
    }
}

/// A self-collision needs at least two segments: with a body of one segment
/// (or none) it never triggers.
pub proof fn lemma_short_body_no_collision(s: Snake)
    requires
        s.body@.len() <= 1,
    ensures
        !s.self_collision(),
{
}

} // verus!

use vstd::prelude::*;
use rand::Rng;

verus! {

/// A direction of travel on the board.
#[derive(Clone, Copy, Debug, PartialEq, Eq, Structural)]
pub enum Direction {
    Right,
    Left,
    Up,
    Down,
}

/// Whether a game is still running.
#[derive(Clone, Copy, Debug, PartialEq, Eq, Structural)]
pub enum GameState {
    Playing,
    GameEnd,
}

/// The direction that reverses `d`.
pub open spec fn opposite(d: Direction) -> Direction {
    match d {
        Direction::Right => Direction::Left,
        Direction::Left => Direction::Right,
        Direction::Up => Direction::Down,
        Direction::Down => Direction::Up,
    }
}

/// The square one step from `p` in direction `d` (rows grow downwards).
pub open spec fn step(p: (i32, i32), d: Direction) -> (int, int) {
    match d {
        Direction::Right => (p.0 + 1, p.1 as int),
        Direction::Left => (p.0 - 1, p.1 as int),
        Direction::Up => (p.0 as int, p.1 - 1),
        Direction::Down => (p.0 as int, p.1 + 1),
    }
}

/// The body after the head moves one step in `d` and the tail square is freed.
pub open spec fn moved(body: Seq<(i32, i32)>, d: Direction) -> Seq<(i32, i32)> {
    seq![(step(body[0], d).0 as i32, step(body[0], d).1 as i32)] + body.drop_last()
}

/// The head lies on the rest of the body or outside the `n` by `n` board.
pub open spec fn collided(body: Seq<(i32, i32)>, n: int) -> bool {
    body.drop_first().contains(body[0]) || !(0 <= body[0].0 < n && 0 <= body[0].1 < n)
}

/// The coordinate that a step from `p` in direction `d` changes is not at
/// the `i32` limit it moves toward.
pub open spec fn movable(p: (i32, i32), d: Direction) -> bool {
    match d {
        Direction::Right => p.0 < i32::MAX,
        Direction::Left => p.0 > i32::MIN,
        Direction::Up => p.1 > i32::MIN,
        Direction::Down => p.1 < i32::MAX,
    }
}

/// A snake: its squares from head to tail, and its heading.
pub struct Snake {
    pub body: Vec<(i32, i32)>,
    pub direction: Direction,
    pub attempted_direction: Direction,
}

impl Snake {
    /// Moves the head one square in the attempted direction, which becomes the
    /// heading, and frees the tail square, which is returned.
    pub fn update(&mut self) -> (tail: (i32, i32))
        requires
            old(self).body@.len() >= 1,
            movable(old(self).body@[0], old(self).attempted_direction),
        ensures
            final(self).direction == old(self).attempted_direction,
            final(self).attempted_direction == old(self).attempted_direction,
            final(self).body@ == moved(old(self).body@, old(self).attempted_direction),
            tail == old(self).body@.last(),
    {
        let head = *self.get_head();
        self.direction = self.attempted_direction;
        let new_head: (i32, i32) = match self.direction {
            Direction::Right => (head.0 + 1, head.1),
            Direction::Left => (head.0 - 1, head.1),
            Direction::Up => (head.0, head.1 - 1),
            Direction::Down => (head.0, head.1 + 1),
        };
        let ghost b = self.body@;
        self.body.insert(0, new_head);
        let tail = self.body.pop().unwrap();
        assert(self.body@ =~= moved(b, self.attempted_direction));
        tail
    }

    /// The head square.
    pub fn get_head(&self) -> (h: &(i32, i32))
        requires
            self.body@.len() >= 1,
        ensures
            *h == self.body@[0],
    {
        &self.body[0]
    }

    /// Ends the game when the head has run into the body or off the
    /// `rows_and_columns` square board; otherwise leaves `state` as it is.
    pub fn check_collisions(&self, state: &mut GameState, rows_and_columns: i32)
        requires
            self.body@.len() >= 1,
        ensures
            collided(self.body@, rows_and_columns as int) ==> *final(state) == GameState::GameEnd,
            !collided(self.body@, rows_and_columns as int) ==> *final(state) == *old(state),
    {
        let head = *self.get_head();
        let mut hit = false;
        let mut i: usize = 1;
        while i < self.body.len()
            invariant
                1 <= i <= self.body@.len(),
                head == self.body@[0],
                hit == exists|k: int| 1 <= k < i && self.body@[k] == head,
            decreases self.body@.len() - i,
        {
            let part = self.body[i];
            if part.0 == head.0 && part.1 == head.1 {
                hit = true;
            }
            i = i + 1;
        }
        proof {
            let rest = self.body@.drop_first();
            if hit {
                let k = choose|k: int| 1 <= k < self.body@.len() && self.body@[k] == head;
                assert(rest[k - 1] == head);
            }
            if rest.contains(head) {
                let k = choose|k: int| 0 <= k < rest.len() && rest[k] == head;
                assert(self.body@[k + 1] == head);
            }
        }
        if hit || head.0 >= rows_and_columns || head.0 < 0 || head.1 < 0 || head.1 >= rows_and_columns {
            *state = GameState::GameEnd;
        }
    }

    /// Takes a requested heading: a reversal, or no request, keeps the current one.
    pub fn steer(&mut self, requested: Option<Direction>)
        ensures
            final(self).body@ == old(self).body@,
            final(self).direction == old(self).direction,
            final(self).attempted_direction == match requested {
                Some(d) => if d != opposite(old(self).direction) { d } else { old(self).direction },
                None => old(self).direction,
            },
    {
        let current = self.direction;
        self.attempted_direction = match requested {
            Some(d) => {
                let reverse = match current {
                    Direction::Right => Direction::Left,
                    Direction::Left => Direction::Right,
                    Direction::Up => Direction::Down,
                    Direction::Down => Direction::Up,
                };
                if d != reverse {
                    d
                } else {
                    current
                }
            },
            None => current,
        };
    }
}

/// Relies on rand::thread_rng and Rng::gen_range: a value drawn from `0..n`
/// (gen_range panics on an empty range, which `requires` excludes).
#[verifier::external_body]
fn random_coordinate(n: i32) -> (r: i32)
    requires
        0 < n,
    ensures
        0 <= r < n,
{
    rand::thread_rng().gen_range(0..n)
}

/// The rules of a game of snake on a square board.
pub struct Game {
    pub rows_and_columns: i32,
    pub snake: Snake,
    pub food: (i32, i32),
    pub state: GameState,
}

impl Game {
    /// The snake has a head, and while the game runs the head is on the board.
    pub open spec fn wf(&self) -> bool {
        &&& self.rows_and_columns > 0
        &&& self.snake.body@.len() >= 1
        &&& self.state == GameState::Playing ==> 0 <= self.snake.body@[0].0 < self.rows_and_columns && 0
            <= self.snake.body@[0].1 < self.rows_and_columns
    }

    /// A running game.
    pub fn new(rows_and_columns: i32, snake: Snake, food: (i32, i32)) -> (g: Game)
        requires
            rows_and_columns > 0,
            snake.body@.len() >= 1,
            0 <= snake.body@[0].0 < rows_and_columns,
            0 <= snake.body@[0].1 < rows_and_columns,
        ensures
            g.wf(),
            g.rows_and_columns == rows_and_columns,
            g.snake == snake,
            g.food == food,
            g.state == GameState::Playing,
    {
        Game { rows_and_columns, snake, food, state: GameState::Playing }
    }

    /// One step of a running game: the snake moves, a collision ends the game,
    /// and a head that reaches the food grows the snake by its old tail square.
    /// Returns whether the food was reached; the food itself stays in place.
    pub fn tick(&mut self) -> (ate: bool)
        requires
            old(self).wf(),
        ensures
            final(self).wf(),
            final(self).rows_and_columns == old(self).rows_and_columns,
            final(self).food == old(self).food,
            old(self).state == GameState::GameEnd ==> *final(self) == *old(self) && !ate,
            old(self).state == GameState::Playing ==> ({
                let m = moved(old(self).snake.body@, old(self).snake.attempted_direction);
                &&& final(self).snake.direction == old(self).snake.attempted_direction
                &&& final(self).snake.attempted_direction == old(self).snake.attempted_direction
                &&& final(self).state == if collided(m, old(self).rows_and_columns as int) {
                    GameState::GameEnd
                } else {
                    GameState::Playing
                }
                &&& ate == (m[0] == old(self).food)
                &&& final(self).snake.body@ == if ate {
                    m.push(old(self).snake.body@.last())
                } else {
                    m
                }
            }),
    {
        if self.state != GameState::Playing {
            return false;
        }
        let tail = self.snake.update();
        self.snake.check_collisions(&mut self.state, self.rows_and_columns);
        let head = *self.snake.get_head();
        if head.0 == self.food.0 && head.1 == self.food.1 {
            self.snake.body.push(tail);
            true
        } else {
            false
        }
    }

    /// One step of a running game; when the food is reached it moves to a
    /// random square of the board.
    pub fn update(&mut self)
        requires
            old(self).wf(),
        ensures
            final(self).wf(),
            final(self).rows_and_columns == old(self).rows_and_columns,
            final(self).state == GameState::Playing || final(self).state == GameState::GameEnd,
            old(self).state == GameState::GameEnd ==> *final(self) == *old(self),
            old(self).state == GameState::Playing ==> ({
                let m = moved(old(self).snake.body@, old(self).snake.attempted_direction);
                let ate = m[0] == old(self).food;
                &&& final(self).snake.direction == old(self).snake.attempted_direction
                &&& final(self).snake.attempted_direction == old(self).snake.attempted_direction
                &&& final(self).state == if collided(m, old(self).rows_and_columns as int) {
                    GameState::GameEnd
                } else {
                    GameState::Playing
                }
                &&& final(self).snake.body@ == if ate {
                    m.push(old(self).snake.body@.last())
                } else {
                    m
                }
                &&& !ate ==> final(self).food == old(self).food
                &&& ate ==> 0 <= final(self).food.0 < old(self).rows_and_columns && 0 <= final(self).food.1
                    < old(self).rows_and_columns
            }),
    {
        if self.tick() {
            let x = random_coordinate(self.rows_and_columns);
            let y = random_coordinate(self.rows_and_columns);
            self.food = (x, y);
        }
    }
}

} // verus!

//! The screen grid: its size, positions on it, and the one-number index of
//! a position.
use vstd::prelude::*;

verus! {

/// Width of the simulated screen, in pixels.
pub const SCREEN_WIDTH: i64 = 5;
/// Height of the simulated screen, in pixels.
pub const SCREEN_HEIGHT: i64 = 3;
/// Number of pixels on the screen.
pub const SIZE: usize = 15;

/// Integer division rounding toward zero, as Rust's `/` does (`d > 0`).
pub open spec fn trunc_div(n: int, d: int) -> int {
    if n >= 0 { n / d } else { -((-n) / d) }
}

/// Remainder matching [`trunc_div`], as Rust's `%` does: it has the sign of `n`.
pub open spec fn trunc_rem(n: int, d: int) -> int {
    n - d * trunc_div(n, d)
}

/// A position on the grid.
#[derive(Copy, Clone, PartialEq, Eq, Structural, Debug)]
pub struct Vec2Integer {
    pub x: i64,
    pub y: i64,
}

/// The one-number index of a position: `x * SCREEN_WIDTH + y`.
pub open spec fn one_index(p: Vec2Integer) -> int {
    p.x * SCREEN_WIDTH + p.y
}

/// The position that the number `n` stands for: `y` is the remainder of `n`
/// by the width, `x` is what is left divided by the height.
pub open spec fn coordinate_of(n: int) -> Vec2Integer {
    let y = trunc_rem(n, SCREEN_WIDTH as int);
    Vec2Integer { x: trunc_div(n - y, SCREEN_HEIGHT as int) as i64, y: y as i64 }
}

/// Whether `point` lies in the range of grid indices, both ends included.
pub open spec fn point_in_bounds(point: int) -> bool {
    0 <= point <= SCREEN_HEIGHT * SCREEN_WIDTH
}

fn coordinate_of_number(num: usize) -> (r: Vec2Integer)
    ensures
        r == coordinate_of(num as i64 as int),
{
    let n = num as i64;
    let y = n % SCREEN_WIDTH;
    let x = (n - y) / SCREEN_HEIGHT;
    Vec2Integer { x, y }
}

impl Vec2Integer {
    /// The one-number index of this position.
    pub fn to_one(&self) -> (r: i64)
        requires
            i64::MIN <= self.x * SCREEN_WIDTH <= i64::MAX,
            i64::MIN <= one_index(*self) <= i64::MAX,
        ensures
            r == one_index(*self),
    {
        self.x * SCREEN_WIDTH + self.y
    }

    /// The position that the number `num` stands for.
    pub fn number_to_coordinate(num: usize) -> (r: Vec2Integer)
        ensures
            r == coordinate_of(num as i64 as int),
            num <= i64::MAX ==> r.y == num % 5 && r.x == (num - num % 5) / 3,
    {
        proof {
            lemma_coordinate_arith(num as int);
        }
        coordinate_of_number(num)
    }

    /// Whether both coordinates agree.
    pub fn equals(&self, second: Vec2Integer) -> (r: bool)
        ensures
            r == (self.x == second.x && self.y == second.y),
    {
        self.x == second.x && self.y == second.y
    }
}

/// The position that the number `num` stands for.
pub fn number_to_coordinate(num: usize) -> (r: Vec2Integer)
    ensures
        r == coordinate_of(num as i64 as int),
        num <= i64::MAX ==> r.y == num % 5 && r.x == (num - num % 5) / 3,
{
    proof {
        lemma_coordinate_arith(num as int);
    }
    coordinate_of_number(num)
}

/// Whether `point` lies in the range of grid indices, both ends included.
pub fn in_bounds(point: i64) -> (r: bool)
    ensures
        r == point_in_bounds(point as int),
{
    point >= 0 && point <= SCREEN_HEIGHT * SCREEN_WIDTH
}

/// For a non-negative number, the position's `y` lies within the width.
pub proof fn lemma_coordinate_y_in_width(n: int)
    requires
        0 <= n,
    ensures
        0 <= coordinate_of(n).y < SCREEN_WIDTH,
{
}

/// The one-number index of the position that `n` stands for is `n` again,
/// for the first ten numbers. (From ten on it is not: 10 stands for the
/// position (3, 0), whose index is 15, because the row is found by dividing
/// by the height rather than the width.)
pub proof fn lemma_index_round_trip(n: int)
    requires
        0 <= n < 10,
    ensures
        one_index(coordinate_of(n)) == n,
{
}

/// A position with `0 <= y < SCREEN_WIDTH` and `x` in 0 or 1 is what its
/// one-number index stands for.
pub proof fn lemma_position_round_trip(p: Vec2Integer)
    requires
        0 <= p.y < SCREEN_WIDTH,
        0 <= p.x < 2,
    ensures
        coordinate_of(one_index(p)) == p,
{
}

/// For a number `n` in `0..=i64::MAX`, the position it stands for has
/// `y = n % 5` and `x = (n - y) / 3`.
pub proof fn lemma_coordinate_arith(n: int)
    ensures
        0 <= n <= i64::MAX ==> coordinate_of(n).y == n % 5 && coordinate_of(n).x == (n - n % 5) / 3,
{
    if 0 <= n <= i64::MAX {
        let y = n % 5;
        assert(0 <= (n - y) / 3 <= i64::MAX);
    }
}

} // verus!

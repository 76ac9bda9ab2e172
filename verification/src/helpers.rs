use vstd::prelude::*;
use crate::random::random_byte;
use crate::random::random_range;

verus! {

/// The greatest common divisor of two natural numbers, by Euclid's rule.
pub open spec fn gcd(a: nat, b: nat) -> nat
    decreases b,
{
    if b == 0 {
        a
    } else {
        gcd(b, a % b)
    }
}

/// Computes the greatest common divisor of `rhs` and `lhs`.
pub fn greatest_common_divisor(rhs: usize, lhs: usize) -> (d: usize)
    ensures
        d == gcd(rhs as nat, lhs as nat),
{
    let mut a: usize = rhs;
    let mut b: usize = lhs;
    while b != 0
        invariant
            gcd(a as nat, b as nat) == gcd(rhs as nat, lhs as nat),
        decreases b,
    {
        let temp: usize = b;
        b = a % b;
        a = temp;
    }
    a
}

/// `k` times `d`.
pub open spec fn multiple(k: int, d: int) -> int {
    k * d
}

/// Whether `n` is a whole multiple of `d`.
pub open spec fn divides(d: int, n: int) -> bool {
    exists|k: int| n == #[trigger] multiple(k, d)
}

/// `x` times `a` and `y` times `b`, added.
pub open spec fn combined(a: int, x: int, b: int, y: int) -> int {
    a * x + b * y
}

/// The greatest common divisor divides both numbers.
pub proof fn lemma_gcd_divides(a: nat, b: nat)
    ensures
        divides(gcd(a, b) as int, a as int),
        divides(gcd(a, b) as int, b as int),
    decreases b,
{
    let g = gcd(a, b) as int;
    if b == 0 {
        assert(a as int == multiple(1, g));
        assert(b as int == multiple(0, g));
    } else {
        lemma_gcd_divides(b, a % b);
        let kb = choose|k: int| b as int == #[trigger] multiple(k, g);
        let kr = choose|k: int| (a % b) as int == #[trigger] multiple(k, g);
        let q = a as int / b as int;
        vstd::arithmetic::div_mod::lemma_fundamental_div_mod(a as int, b as int);
        assert(a as int == multiple(q * kb + kr, g)) by (nonlinear_arith)
            requires
                a as int == b as int * q + (a % b) as int,
                b as int == kb * g,
                (a % b) as int == kr * g,
        ;
    }
}

/// Every common divisor of two numbers divides their greatest common divisor.
pub proof fn lemma_gcd_greatest(a: nat, b: nat, c: int)
    requires
        divides(c, a as int),
        divides(c, b as int),
    ensures
        divides(c, gcd(a, b) as int),
    decreases b,
{
    if b != 0 {
        let ka = choose|k: int| a as int == #[trigger] multiple(k, c);
        let kb = choose|k: int| b as int == #[trigger] multiple(k, c);
        let q = a as int / b as int;
        vstd::arithmetic::div_mod::lemma_fundamental_div_mod(a as int, b as int);
        assert((a % b) as int == multiple(ka - q * kb, c)) by (nonlinear_arith)
            requires
                a as int == b as int * q + (a % b) as int,
                a as int == ka * c,
                b as int == kb * c,
        ;
        lemma_gcd_greatest(b, a % b, c);
    }
}

/// The greatest common divisor of two numbers is a whole multiple of the one
/// added to a whole multiple of the other.
pub proof fn lemma_gcd_combined(a: nat, b: nat)
    ensures
        exists|x: int, y: int| gcd(a, b) as int == #[trigger] combined(a as int, x, b as int, y),
    decreases b,
{
    if b == 0 {
        assert(gcd(a, b) as int == combined(a as int, 1, b as int, 0));
    } else {
        lemma_gcd_combined(b, a % b);
        let (x, y) = choose|x: int, y: int|
            gcd(b, a % b) as int == #[trigger] combined(b as int, x, (a % b) as int, y);
        let q = a as int / b as int;
        vstd::arithmetic::div_mod::lemma_fundamental_div_mod(a as int, b as int);
        assert(gcd(a, b) as int == combined(a as int, y, b as int, x - q * y)) by (nonlinear_arith)
            requires
                a as int == b as int * q + (a % b) as int,
                gcd(a, b) as int == b as int * x + (a % b) as int * y,
        ;
    }
}

/// A number that divides a product and has no divisor in common with one
/// factor divides the other factor.
pub proof fn lemma_coprime_divides(s: nat, m: nat, t: int)
    requires
        gcd(s, m) == 1,
        divides(m as int, s * t),
    ensures
        divides(m as int, t),
{
    lemma_gcd_combined(s, m);
    let (x, y) = choose|x: int, y: int| gcd(s, m) as int == #[trigger] combined(s as int, x, m as int, y);
    let k = choose|k: int| s * t == #[trigger] multiple(k, m as int);
    assert(t == multiple(k * x + t * y, m as int)) by (nonlinear_arith)
        requires
            1 == s as int * x + m as int * y,
            s * t == k * m as int,
    ;
}

/// One has no divisor in common with any number.
pub proof fn lemma_gcd_one(n: nat)
    ensures
        gcd(1, n) == 1,
{
    reveal_with_fuel(gcd, 3);
    if n >= 2 {
        assert(1nat % n == 1) by {
            vstd::arithmetic::div_mod::lemma_small_mod(1, n);
        }
        assert(n % 1 == 0);
    }
}

/// The number of draws after which [`random_coprime`] settles for one.
pub const COPRIME_TRIES: usize = 64;

/// Draws a number below `target` that has no divisor in common with it. The
/// number is drawn from all numbers from one up to below `target` until one
/// fits; where `target` is below two, or no draw of many has fitted, it is one.
pub fn random_coprime(target: usize) -> (step: usize)
    ensures
        gcd(step as nat, target as nat) == 1,
        1 <= step,
        target >= 2 ==> step < target,
        target < 2 ==> step == 1,
{
    proof {
        lemma_gcd_one(target as nat);
    }
    if target < 2 {
        return 1;
    }
    let mut tries: usize = 0;
    while tries < COPRIME_TRIES
        invariant
            target >= 2,
        decreases COPRIME_TRIES - tries,
    {
        let candidate: usize = random_range(1, target);
        if greatest_common_divisor(candidate, target) == 1 {
            return candidate;
        }
        tries += 1;
    }
    1
}

/// The part of a random byte that jitters a colour channel: the remainder of
/// `draw` by `randvar`, with the sign of `draw`.
pub open spec fn jitter(draw: i8, randvar: u32) -> int {
    if draw >= 0 {
        draw as int % randvar as int
    } else {
        -((-(draw as int)) % randvar as int)
    }
}

/// A colour channel near `base`: `base` moved by the jitter of `draw` and by
/// the offset `gamma`, and held within a byte.
pub open spec fn channel_near(base: u8, draw: i8, randvar: u32, gamma: i16) -> int {
    let moved = base as int + jitter(draw, randvar) + gamma as int;
    if moved < 0 {
        0
    } else if moved > 255 {
        255
    } else {
        moved
    }
}

/// An opaque pixel: alpha 255, then red, green and blue, a byte each.
pub open spec fn pixel(red: int, green: int, blue: int) -> int {
    0xff00_0000 + red * 0x1_0000 + green * 0x100 + blue
}

/// Computes one colour channel from its base value, a random byte and the
/// offset `gamma`.
pub fn channel(base: u8, draw: i8, randvar: u32, gamma: i16) -> (value: u8)
    requires
        0 < randvar <= 127,
    ensures
        value == channel_near(base, draw, randvar, gamma),
{
    let magnitude: u32 = if draw >= 0 {
        draw as u32
    } else {
        (-(draw as i32)) as u32
    };
    let rest: i32 = (magnitude % randvar) as i32;
    let delta: i32 = if draw >= 0 {
        rest
    } else {
        -rest
    };
    let moved: i32 = base as i32 + delta + gamma as i32;
    if moved < 0 {
        0
    } else if moved > 255 {
        255
    } else {
        moved as u8
    }
}

/// A colour near the given one: each channel is moved by less than `randvar`
/// at random, and by `gamma`, the offset of the moment.
pub fn color_near(red: u8, green: u8, blue: u8, randvar: u32, gamma: i16) -> (color: u32)
    requires
        0 < randvar <= 127,
    ensures
        exists|r: i8, g: i8, b: i8|
            color == #[trigger] pixel(
                channel_near(red, r, randvar, gamma),
                channel_near(green, g, randvar, gamma),
                channel_near(blue, b, randvar, gamma),
            ),
{
    let r: i8 = random_byte();
    let g: i8 = random_byte();
    let b: i8 = random_byte();
    let color: u32 = 0xff00_0000u32 + (channel(red, r, randvar, gamma) as u32) * 0x1_0000 + (channel(
        green,
        g,
        randvar,
        gamma,
    ) as u32) * 0x100 + channel(blue, b, randvar, gamma) as u32;
    assert(color == pixel(
        channel_near(red, r, randvar, gamma),
        channel_near(green, g, randvar, gamma),
        channel_near(blue, b, randvar, gamma),
    ));
    color
}

/// The largest coordinate and the largest displacement, in absolute value,
/// that a line may be traced with.
pub const TRACE_LIMIT: isize = 0x0fff_ffff;

/// A walk along the cells of a straight line, from a start to an end, one
/// cell at a time.
pub struct LineTracer {
    /// The cell the walk has come to.
    pub x0: isize,
    pub y0: isize,
    /// The end of the line.
    pub x1: isize,
    pub y1: isize,
    /// The length of the line along each axis.
    pub dx: isize,
    pub dy: isize,
    /// The direction of the line along each axis, 1 or -1.
    pub sx: isize,
    pub sy: isize,
    /// The error term that decides which axis the walk advances on.
    pub err: isize,
    /// Whether the end has been given out.
    pub finished: bool,
}

impl LineTracer {
    /// The columns still to go.
    pub open spec fn left_x(&self) -> int {
        if self.sx == 1 {
            self.x1 - self.x0
        } else {
            self.x0 - self.x1
        }
    }

    /// The rows still to go.
    pub open spec fn left_y(&self) -> int {
        if self.sy == 1 {
            self.y1 - self.y0
        } else {
            self.y0 - self.y1
        }
    }

    /// The number of calls of `step` that can still give a cell, at most.
    pub open spec fn remaining(&self) -> nat {
        if self.finished || self.left_x() < 0 || self.left_y() < 0 {
            0
        } else {
            (self.left_x() + self.left_y() + 1) as nat
        }
    }

    /// Whether the walk is in a valid state: it is on its way between start
    /// and end, and the error term is what the steps made so far make of it.
    pub open spec fn wf(&self) -> bool {
        &&& 0 <= self.dx <= TRACE_LIMIT
        &&& 0 <= self.dy <= TRACE_LIMIT
        &&& self.sx == 1 || self.sx == -1
        &&& self.sy == 1 || self.sy == -1
        &&& -2 * TRACE_LIMIT <= self.x1 <= 2 * TRACE_LIMIT
        &&& -2 * TRACE_LIMIT <= self.y1 <= 2 * TRACE_LIMIT
        &&& 0 <= self.left_x() <= self.dx
        &&& 0 <= self.left_y() <= self.dy
        &&& -3 * self.dy <= 2 * self.err <= 3 * self.dx
        &&& self.err == (self.dy - self.left_y() + 1) * self.dx - (self.dx - self.left_x() + 1) * self.dy
    }

    /// What the next call of `step` gives: the cell the walk has come to, or
    /// nothing once the end has been given out.
    pub open spec fn point(&self) -> Option<(isize, isize)> {
        if self.finished {
            None
        } else {
            Some((self.x0, self.y0))
        }
    }

    /// Whether the walk advances by a column in its next step.
    pub open spec fn steps_x(&self) -> bool {
        2 * self.err > -self.dy
    }

    /// Whether the walk advances by a row in its next step.
    pub open spec fn steps_y(&self) -> bool {
        2 * self.err < self.dx
    }

    /// The walk after the next call of `step`: finished once it stands on the
    /// end, else advanced by a column, by a row, or by both.
    pub open spec fn next(&self) -> LineTracer {
        if self.finished {
            *self
        } else if self.x0 == self.x1 && self.y0 == self.y1 {
            LineTracer { finished: true, ..*self }
        } else {
            let over = if self.steps_x() {
                LineTracer { err: (self.err - self.dy) as isize, x0: (self.x0 + self.sx) as isize, ..*self }
            } else {
                *self
            };
            if self.steps_y() {
                LineTracer { err: (over.err + self.dx) as isize, y0: (self.y0 + self.sy) as isize, ..over }
            } else {
                over
            }
        }
    }

    /// A step of a walk that is not over keeps the walk valid and brings it
    /// nearer to its end, by at most one column and one row.
    pub proof fn lemma_next(&self)
        requires
            self.wf(),
            !self.finished,
        ensures
            self.next().wf(),
            self.next().remaining() < self.remaining(),
            self.next().x1 == self.x1,
            self.next().y1 == self.y1,
            self.next().finished <==> (self.x0 == self.x1 && self.y0 == self.y1),
            -1 <= self.next().x0 - self.x0 <= 1,
            -1 <= self.next().y0 - self.y0 <= 1,
            self.next().left_x() <= self.left_x(),
            self.next().left_y() <= self.left_y(),
    {
        let dx = self.dx as int;
        let dy = self.dy as int;
        let rx = self.left_x();
        let ry = self.left_y();
        let err = self.err as int;
        if self.x0 == self.x1 && self.y0 == self.y1 {
        } else {
            assert(rx > 0 || ry > 0);
            // the error term, multiplied out
            assert(err == dy * dx - ry * dx + dx - dx * dy + rx * dy - dy) by (nonlinear_arith)
                requires
                    err == (dy - ry + 1) * dx - (dx - rx + 1) * dy,
            ;
            assert(dy * dx == dx * dy) by (nonlinear_arith);
            assert(err == rx * dy - ry * dx + dx - dy);
            if rx == 0 {
                // no column is left: the walk does not advance by a column
                assert(ry * dx >= dx) by (nonlinear_arith)
                    requires
                        ry >= 1,
                        dx >= 0,
                ;
                assert(rx * dy == 0) by (nonlinear_arith)
                    requires
                        rx == 0,
                ;
                assert(!self.steps_x());
            }
            if ry == 0 {
                // no row is left: the walk does not advance by a row
                assert(rx * dy >= dy) by (nonlinear_arith)
                    requires
                        rx >= 1,
                        dy >= 0,
                ;
                assert(ry * dx == 0) by (nonlinear_arith)
                    requires
                        ry == 0,
                ;
                assert(!self.steps_y());
            }
            assert(self.steps_x() || self.steps_y());
            let after = self.next();
            let rx2 = if self.steps_x() {
                rx - 1
            } else {
                rx
            };
            let ry2 = if self.steps_y() {
                ry - 1
            } else {
                ry
            };
            assert(after.left_x() == rx2);
            assert(after.left_y() == ry2);
            assert((dy - ry2 + 1) * dx - (dx - rx2 + 1) * dy == rx2 * dy - ry2 * dx + dx - dy)
                by (nonlinear_arith);
            assert(rx2 * dy - ry2 * dx == rx * dy - ry * dx - (if self.steps_x() {
                dy
            } else {
                0
            }) + (if self.steps_y() {
                dx
            } else {
                0
            })) by (nonlinear_arith)
                requires
                    rx2 == if self.steps_x() {
                        rx - 1
                    } else {
                        rx
                    },
                    ry2 == if self.steps_y() {
                        ry - 1
                    } else {
                        ry
                    },
            ;
        }
    }

    /// The walk from `(x0, y0)` to the cell `deltax` columns and `deltay`
    /// rows from it, before its first step.
    pub open spec fn begun(x0: isize, y0: isize, deltax: isize, deltay: isize) -> LineTracer {
        let dx = if deltax < 0 {
            -deltax
        } else {
            deltax as int
        };
        let dy = if deltay < 0 {
            -deltay
        } else {
            deltay as int
        };
        LineTracer {
            x0,
            y0,
            x1: (x0 + deltax) as isize,
            y1: (y0 + deltay) as isize,
            dx: dx as isize,
            dy: dy as isize,
            sx: if 0 < deltax {
                1isize
            } else {
                -1isize
            },
            sy: if 0 < deltay {
                1isize
            } else {
                -1isize
            },
            err: (dx - dy) as isize,
            finished: false,
        }
    }

    /// A walk from `(x0, y0)` to the cell `deltax` columns and `deltay` rows
    /// from it.
    pub fn build(x0: isize, y0: isize, deltax: isize, deltay: isize) -> (tracer: Self)
        requires
            -TRACE_LIMIT <= x0 <= TRACE_LIMIT,
            -TRACE_LIMIT <= y0 <= TRACE_LIMIT,
            -TRACE_LIMIT <= deltax <= TRACE_LIMIT,
            -TRACE_LIMIT <= deltay <= TRACE_LIMIT,
        ensures
            tracer == Self::begun(x0, y0, deltax, deltay),
            tracer.wf(),
            tracer.remaining() == tracer.dx + tracer.dy + 1,
    {
        let x1: isize = x0 + deltax;
        let y1: isize = y0 + deltay;
        let dx: isize = if deltax < 0 {
            -deltax
        } else {
            deltax
        };
        let dy: isize = if deltay < 0 {
            -deltay
        } else {
            deltay
        };
        let sx: isize = if x0 < x1 {
            1
        } else {
            -1
        };
        let sy: isize = if y0 < y1 {
            1
        } else {
            -1
        };
        let err: isize = dx - dy;
        proof {
            assert((dy - dy + 1) * dx - (dx - dx + 1) * dy == dx - dy) by (nonlinear_arith);
        }
        LineTracer { x0, y0, x1, y1, dx, dy, sx, sy, err, finished: false }
    }

    /// Gives the cell the walk has come to and advances the walk; gives
    /// nothing once the end of the line has been given out.
    pub fn step(&mut self) -> (point: Option<(isize, isize)>)
        requires
            old(self).wf(),
        ensures
            point == old(self).point(),
            *final(self) == old(self).next(),
            final(self).wf(),
            !old(self).finished ==> final(self).remaining() < old(self).remaining(),
    {
        if self.finished {
            return None;
        }
        proof {
            self.lemma_next();
        }
        let point = (self.x0, self.y0);

        if self.x0 == self.x1 && self.y0 == self.y1 {
            self.finished = true;
            return Some(point);
        }
        let e2: isize = 2 * self.err;
        if e2 > -self.dy {
            self.err -= self.dy;
            self.x0 += self.sx;
        }
        if e2 < self.dx {
            self.err += self.dx;
            self.y0 += self.sy;
        }
        Some(point)
    }
}

} // verus!

//! Lines and rectangles in an image.
use image::{Rgb, RgbImage};
use vstd::prelude::*;

verus! {

/// Red, green and blue.
pub type Color = (u8, u8, u8);

/// An image of red, green and blue samples.
#[verifier::external_body]
pub struct Canvas {
    image: RgbImage,
}

/// The colors of the pixels of a canvas.
pub uninterp spec fn canvas_pixels(canvas: Canvas) -> Map<(u32, u32), Color>;

/// The width and the height of a canvas.
pub uninterp spec fn canvas_size(canvas: Canvas) -> (u32, u32);

/// Pixels of one color.
pub open spec fn blank(width: u32, height: u32, color: Color) -> Map<(u32, u32), Color> {
    Map::new(|p: (u32, u32)| p.0 < width && p.1 < height, |p: (u32, u32)| color)
}

/// `RgbImage::from_pixel`: an image of this size with the color in every pixel. It panics
/// where the samples of a row cannot be counted, or where all samples exceed the largest
/// size of a vector.
#[verifier::external_body]
fn canvas_new(width: u32, height: u32, color: Color) -> (canvas: Canvas)
    requires
        3 * width <= usize::MAX,
        width * height * 3 <= isize::MAX,
    ensures
        canvas_size(canvas) == (width, height),
        canvas_pixels(canvas) == blank(width, height, color),
{
    Canvas { image: RgbImage::from_pixel(width, height, Rgb([color.0, color.1, color.2])) }
}

/// `RgbImage::dimensions`: the width and the height.
#[verifier::external_body]
fn canvas_dimensions(canvas: &Canvas) -> (size: (u32, u32))
    ensures
        size == canvas_size(*canvas),
{
    canvas.image.dimensions()
}

/// `RgbImage::put_pixel`: the pixel gets the color, and the others keep theirs. It panics
/// outside the image.
#[verifier::external_body]
fn canvas_put(canvas: &mut Canvas, x: u32, y: u32, color: Color)
    requires
        x < canvas_size(*old(canvas)).0,
        y < canvas_size(*old(canvas)).1,
    ensures
        canvas_size(*final(canvas)) == canvas_size(*old(canvas)),
        canvas_pixels(*final(canvas)) == canvas_pixels(*old(canvas)).insert((x, y), color),
{
    canvas.image.put_pixel(x, y, Rgb([color.0, color.1, color.2]));
}

/// `RgbImage::get_pixel`: the color of the pixel. It panics outside the image.
#[verifier::external_body]
fn canvas_get(canvas: &Canvas, x: u32, y: u32) -> (color: Color)
    requires
        x < canvas_size(*canvas).0,
        y < canvas_size(*canvas).1,
    ensures
        color == canvas_pixels(*canvas)[(x, y)],
{
    let pixel = canvas.image.get_pixel(x, y);
    (pixel[0], pixel[1], pixel[2])
}

/// `RgbImage::into_raw`: the samples row by row, three for each pixel.
#[verifier::external_body]
fn canvas_into_raw(canvas: Canvas) -> (bytes: Vec<u8>)
    ensures
        bytes@.len() == canvas_size(canvas).0 * canvas_size(canvas).1 * 3,
        forall|x: u32, y: u32| x < canvas_size(canvas).0 && y < canvas_size(canvas).1 ==> (#[trigger] canvas_pixels(canvas)[(x, y)]).0 == bytes@[3 * (y * canvas_size(canvas).0 + x)] && canvas_pixels(canvas)[(x, y)].1 == bytes@[3 * (y * canvas_size(canvas).0 + x) + 1] && canvas_pixels(canvas)[(x, y)].2 == bytes@[3 * (y * canvas_size(canvas).0 + x) + 2],
{
    canvas.image.into_raw()
}

/// The pixels with another color where `inside` holds.
pub open spec fn tinted(
    pixels: Map<(u32, u32), Color>,
    inside: spec_fn(int, int) -> bool,
    color: Color,
) -> Map<(u32, u32), Color> {
    Map::new(
        |p: (u32, u32)| pixels.contains_key(p),
        |p: (u32, u32)|
            if inside(p.0 as int, p.1 as int) {
                color
            } else {
                pixels[p]
            },
    )
}

// Lines.

/// How a line of `dx` columns and `dy` rows goes on after `a` columns and `b` rows.
pub open spec fn next_step(dx: int, dy: int, a: int, b: int) -> (int, int) {
    let off = b * dx - a * dy;
    (
        if 2 * off >= dy - 2 * dx {
            a + 1
        } else {
            a
        },
        if 2 * off <= 2 * dy - dx {
            b + 1
        } else {
            b
        },
    )
}

/// The places that a line passes from `(a, b)` on, in `k` steps.
pub open spec fn line_from(dx: int, dy: int, a: int, b: int, k: nat) -> Seq<(int, int)>
    decreases k,
{
    if k == 0 {
        seq![(a, b)]
    } else {
        let next = next_step(dx, dy, a, b);
        seq![(a, b)] + line_from(dx, dy, next.0, next.1, (k - 1) as nat)
    }
}

/// How many steps a line takes.
pub open spec fn steps(dx: int, dy: int) -> nat {
    if dx >= dy {
        dx as nat
    } else {
        dy as nat
    }
}

/// Near the ideal line: not further off than half a place.
pub open spec fn is_near(dx: int, dy: int, a: int, b: int) -> bool {
    &&& 0 <= a <= dx
    &&& 0 <= b <= dy
    &&& -steps(dx, dy) <= 2 * (b * dx - a * dy) <= steps(dx, dy)
}

/// The second place is one further in the longer direction, and no more than one further in
/// the other.
pub open spec fn are_neighbours(dx: int, dy: int, p: (int, int), q: (int, int)) -> bool {
    &&& p.0 <= q.0 <= p.0 + 1
    &&& p.1 <= q.1 <= p.1 + 1
    &&& if dx >= dy {
        q.0 == p.0 + 1
    } else {
        q.1 == p.1 + 1
    }
}

/// A step of a line leads on in its longer direction and stays near the ideal line.
proof fn lemma_next_step(dx: int, dy: int, a: int, b: int)
    requires
        0 <= dx,
        0 <= dy,
        is_near(dx, dy, a, b),
        if dx >= dy {
            a < dx
        } else {
            b < dy
        },
    ensures
        ({
            let (c, d) = next_step(dx, dy, a, b);
            &&& is_near(dx, dy, c, d)
            &&& if dx >= dy {
                c == a + 1
            } else {
                d == b + 1
            }
        }),
{
    let (c, d) = next_step(dx, dy, a, b);
    let off = b * dx - a * dy;
    let after = d * dx - c * dy;
    assert(after == off + (d - b) * dx - (c - a) * dy) by (nonlinear_arith)
        requires
            off == b * dx - a * dy,
            after == d * dx - c * dy,
    ;
    assert((d - b) * dx == if d > b {
        dx
    } else {
        0
    }) by (nonlinear_arith)
        requires
            d == b || d == b + 1,
    ;
    assert((c - a) * dy == if c > a {
        dy
    } else {
        0
    }) by (nonlinear_arith)
        requires
            c == a || c == a + 1,
    ;
    if dx >= dy {
        assert(c <= dx);
        // Above the last row the line would be too far off.
        if d > dy {
            assert(after >= dx) by (nonlinear_arith)
                requires
                    d >= dy + 1,
                    c <= dx,
                    dx >= 0,
                    dy >= 0,
                    after == d * dx - c * dy,
            ;
        }
    } else {
        assert(d <= dy);
        if c > dx {
            assert(-after >= dy) by (nonlinear_arith)
                requires
                    c >= dx + 1,
                    d <= dy,
                    dx >= 0,
                    dy >= 0,
                    after == d * dx - c * dy,
            ;
        }
    }
}

/// A line starts and ends at its ends, has as many places as its longer direction demands,
/// goes from place to neighbouring place, and is nowhere further than half a place off the
/// ideal line.
pub proof fn law_line_joins_its_ends(dx: int, dy: int)
    requires
        0 <= dx,
        0 <= dy,
    ensures
        ({
            let line = line_from(dx, dy, 0, 0, steps(dx, dy));
            &&& line.len() == steps(dx, dy) + 1
            &&& line[0] == (0int, 0int)
            &&& line.last() == (dx, dy)
            &&& forall|i: int|
                #![trigger line[i]]
                0 <= i < line.len() ==> is_near(dx, dy, line[i].0, line[i].1)
            &&& forall|i: int, j: int|
                #![trigger line[i], line[j]]
                0 <= i < j < line.len() && j == i + 1 ==> are_neighbours(dx, dy, line[i], line[j])
        }),
{
    assert(0 * dx == 0 && 0 * dy == 0) by (nonlinear_arith);
    lemma_line(dx, dy, 0, 0, steps(dx, dy));
}

proof fn lemma_line(dx: int, dy: int, a: int, b: int, k: nat)
    requires
        0 <= dx,
        0 <= dy,
        is_near(dx, dy, a, b),
        k == if dx >= dy {
            dx - a
        } else {
            dy - b
        },
    ensures
        ({
            let line = line_from(dx, dy, a, b, k);
            &&& line.len() == k + 1
            &&& line[0] == (a, b)
            &&& line.last() == (dx, dy)
            &&& forall|i: int|
                #![trigger line[i]]
                0 <= i < line.len() ==> is_near(dx, dy, line[i].0, line[i].1)
            &&& forall|i: int, j: int|
                #![trigger line[i], line[j]]
                0 <= i < j < line.len() && j == i + 1 ==> are_neighbours(dx, dy, line[i], line[j])
        }),
    decreases k,
{
    let line = line_from(dx, dy, a, b, k);
    if k == 0 {
        if dx >= dy {
            lemma_at_end(dx, dy, b);
        } else {
            lemma_at_end(dy, dx, a);
        }
    } else {
        lemma_next_step(dx, dy, a, b);
        let (c, d) = next_step(dx, dy, a, b);
        lemma_line(dx, dy, c, d, (k - 1) as nat);
        let rest = line_from(dx, dy, c, d, (k - 1) as nat);
        assert(line == seq![(a, b)] + rest);
        assert(line.last() == rest.last());
        assert forall|i: int|
            #![trigger line[i]]
            0 <= i < line.len() implies is_near(dx, dy, line[i].0, line[i].1) by {
            if i > 0 {
                assert(line[i] == rest[i - 1]);
            }
        }
        assert forall|i: int, j: int|
            #![trigger line[i], line[j]]
            0 <= i < j < line.len() && j == i + 1 implies are_neighbours(
            dx,
            dy,
            line[i],
            line[j],
        ) by {
            assert(line[j] == rest[i]);
            if i > 0 {
                assert(line[i] == rest[i - 1]);
                assert(are_neighbours(dx, dy, rest[i - 1], rest[i]));
            }
        }
    }
}

/// At the end of its longer direction a line is at the end of the shorter one.
proof fn lemma_at_end(long: int, short: int, b: int)
    requires
        0 <= short <= long,
        0 <= b <= short,
        -long <= 2 * (b * long - long * short) <= long,
    ensures
        b == short,
{
    if b < short {
        assert(2 * (b * long - long * short) <= -2 * long) by (nonlinear_arith)
            requires
                b <= short - 1,
                long >= 0,
        ;
        assert(long == 0);
    }
}

/// A place `(a, b)` of a line that starts at `(x0, y0)` and goes towards `(x1, y1)`.
pub open spec fn line_pixel(x0: int, y0: int, x1: int, y1: int, a: int, b: int) -> (int, int) {
    (
        if x0 < x1 {
            x0 + a
        } else {
            x0 - a
        },
        if y0 < y1 {
            y0 + b
        } else {
            y0 - b
        },
    )
}

pub open spec fn distance(a: int, b: int) -> int {
    if a <= b {
        b - a
    } else {
        a - b
    }
}

/// The line from `(x0, y0)` to `(x1, y1)` passes a pixel.
pub open spec fn on_line(x0: int, y0: int, x1: int, y1: int) -> spec_fn(int, int) -> bool {
    let (dx, dy) = (distance(x0, x1), distance(y0, y1));
    on_places(x0, y0, x1, y1, line_from(dx, dy, 0, 0, steps(dx, dy)))
}

/// The pixels of the places of a list.
pub open spec fn on_places(
    x0: int,
    y0: int,
    x1: int,
    y1: int,
    line: Seq<(int, int)>,
) -> spec_fn(int, int) -> bool {
    |x: int, y: int| passes(x0, y0, x1, y1, line, x, y)
}

/// One pixel.
pub open spec fn at_place(x: int, y: int) -> spec_fn(int, int) -> bool {
    |a: int, b: int| a == x && b == y
}

/// Some place of a list is at a pixel.
pub open spec fn passes(
    x0: int,
    y0: int,
    x1: int,
    y1: int,
    line: Seq<(int, int)>,
    x: int,
    y: int,
) -> bool {
    exists|i: int|
        #![trigger line[i]]
        0 <= i < line.len() && line_pixel(x0, y0, x1, y1, line[i].0, line[i].1) == (x, y)
}

/// The pixels of a rectangle.
pub open spec fn in_rect(x0: int, y0: int, x1: int, y1: int) -> spec_fn(int, int) -> bool {
    |x: int, y: int|
        {
            &&& x0 <= x <= x1 || x1 <= x <= x0
            &&& y0 <= y <= y1 || y1 <= y <= y0
        }
}

impl Canvas {
    pub open spec fn pixels(&self) -> Map<(u32, u32), Color> {
        canvas_pixels(*self)
    }

    pub open spec fn size(&self) -> (u32, u32) {
        canvas_size(*self)
    }

    /// There is a pixel at each place inside the size.
    pub open spec fn wf(&self) -> bool {
        forall|p: (u32, u32)| #[trigger]
            self.pixels().contains_key(p) <==> p.0 < self.size().0 && p.1 < self.size().1
    }

    /// A canvas of one color.
    pub fn new(width: u32, height: u32, color: Color) -> (canvas: Canvas)
        requires
            3 * width <= usize::MAX,
            width * height * 3 <= isize::MAX,
        ensures
            canvas.wf(),
            canvas.size() == (width, height),
            canvas.pixels() == blank(width, height, color),
    {
        canvas_new(width, height, color)
    }

    pub fn dimensions(&self) -> (size: (u32, u32))
        ensures
            size == self.size(),
    {
        canvas_dimensions(self)
    }

    /// The color of a pixel, if there is one.
    pub fn get(&self, x: u32, y: u32) -> (color: Option<Color>)
        requires
            self.wf(),
        ensures
            match color {
                Some(color) => self.pixels().contains_key((x, y)) && self.pixels()[(x, y)] == color,
                None => !self.pixels().contains_key((x, y)),
            },
    {
        let (width, height) = canvas_dimensions(self);
        if x < width && y < height {
            Some(canvas_get(self, x, y))
        } else {
            None
        }
    }

    /// The samples row by row, three for each pixel.
    pub fn into_samples(self) -> (bytes: Vec<u8>)
        requires
            self.wf(),
        ensures
            bytes@.len() == self.size().0 * self.size().1 * 3,
            forall|x: u32, y: u32|
                x < self.size().0 && y < self.size().1 ==> (#[trigger] self.pixels()[(x, y)]).0
                    == bytes@[3 * (y * self.size().0 + x)] && self.pixels()[(x, y)].1 == bytes@[3
                    * (y * self.size().0 + x) + 1] && self.pixels()[(x, y)].2 == bytes@[3 * (y
                    * self.size().0 + x) + 2],
    {
        canvas_into_raw(self)
    }

    /// Colors a pixel, if there is one at this place.
    fn put(&mut self, x: i64, y: i64, color: Color)
        requires
            old(self).wf(),
        ensures
            final(self).wf(),
            final(self).size() == old(self).size(),
            final(self).pixels() == tinted(
                old(self).pixels(),
                at_place(x as int, y as int),
                color,
            ),
    {
        let (width, height) = canvas_dimensions(self);
        let ghost before = self.pixels();
        if 0 <= x && x < width as i64 && 0 <= y && y < height as i64 {
            canvas_put(self, x as u32, y as u32, color);
            assert(before.contains_key((x as u32, y as u32)));
        }
        assert(self.pixels() =~= tinted(before, at_place(x as int, y as int), color));
    }

    /// Draws a line.
    #[verifier::rlimit(40)]
    pub fn draw_line(&mut self, x0: i32, y0: i32, x1: i32, y1: i32, color: Color)
        requires
            old(self).wf(),
        ensures
            final(self).wf(),
            final(self).size() == old(self).size(),
            final(self).pixels() == tinted(
                old(self).pixels(),
                on_line(x0 as int, y0 as int, x1 as int, y1 as int),
                color,
            ),
    {
        let ghost start = self.pixels();
        // Twice the error may exceed the range of the coordinates.
        let dx: i64 = if x0 < x1 {
            x1 as i64 - x0 as i64
        } else {
            x0 as i64 - x1 as i64
        };
        let dy: i64 = if y0 < y1 {
            y1 as i64 - y0 as i64
        } else {
            y0 as i64 - y1 as i64
        };
        let (mut x, mut y): (i64, i64) = (x0 as i64, y0 as i64);
        let mut error: i64 = dx - dy;
        let ghost mut a: int = 0;
        let ghost mut b: int = 0;
        let ghost mut done: Seq<(int, int)> = Seq::empty();
        let ghost goal = line_from(dx as int, dy as int, 0, 0, steps(dx as int, dy as int));
        let ghost mut left: nat = steps(dx as int, dy as int);
        proof {
            assert(0 * dx == 0 && 0 * dy == 0) by (nonlinear_arith);
            assert(done + goal =~= goal);
            assert(start =~= tinted(
                start,
                on_places(x0 as int, y0 as int, x1 as int, y1 as int, done),
                color,
            ));
        }
        loop
            invariant_except_break
                self.pixels() == tinted(
                    start,
                    on_places(x0 as int, y0 as int, x1 as int, y1 as int, done),
                    color,
                ),
            invariant
                self.wf(),
                self.size() == old(self).size(),
                start == old(self).pixels(),
                dx == distance(x0 as int, x1 as int),
                dy == distance(y0 as int, y1 as int),
                is_near(dx as int, dy as int, a, b),
                (x as int, y as int) == line_pixel(
                    x0 as int,
                    y0 as int,
                    x1 as int,
                    y1 as int,
                    a,
                    b,
                ),
                error == (b * dx - a * dy) + dx - dy,
                left == if dx >= dy {
                    dx - a
                } else {
                    dy - b
                },
                goal == line_from(dx as int, dy as int, 0, 0, steps(dx as int, dy as int)),
                goal == done + line_from(dx as int, dy as int, a, b, left),
            ensures
                self.wf(),
                self.size() == old(self).size(),
                self.pixels() == tinted(
                    start,
                    on_line(x0 as int, y0 as int, x1 as int, y1 as int),
                    color,
                ),
            decreases left,
        {
            let ghost before = self.pixels();
            let ghost more = done.push((a, b));
            self.put(x, y, color);
            proof {
                lemma_painted(
                    start,
                    before,
                    self.pixels(),
                    (x0 as int, y0 as int),
                    (x1 as int, y1 as int),
                    done,
                    (a, b),
                    color,
                );
            }
            if x == x1 as i64 && y == y1 as i64 {
                proof {
                    assert(a == dx && b == dy);
                    assert(left == 0);
                    assert(goal =~= more);
                    assert(self.pixels() =~= tinted(
                        start,
                        on_line(x0 as int, y0 as int, x1 as int, y1 as int),
                        color,
                    ));
                }
                break;
            }
            proof {
                if left == 0 {
                    if dx >= dy {
                        lemma_at_end(dx as int, dy as int, b);
                    } else {
                        lemma_at_end(dy as int, dx as int, a);
                    }
                    assert(false);
                }
                lemma_next_step(dx as int, dy as int, a, b);
            }
            let ghost off = b * dx - a * dy;
            let ghost (c, d) = next_step(dx as int, dy as int, a, b);
            let ghost rest = line_from(dx as int, dy as int, c, d, (left - 1) as nat);
            let twice: i64 = 2 * error;
            if twice >= -dy {
                error = error - dy;
                x = if x0 < x1 {
                    x + 1
                } else {
                    x - 1
                };
            }
            if twice <= dx {
                error = error + dx;
                y = if y0 < y1 {
                    y + 1
                } else {
                    y - 1
                };
            }
            proof {
                assert(d * dx - c * dy == off + (d - b) * dx - (c - a) * dy) by (nonlinear_arith)
                    requires
                        off == b * dx - a * dy,
                ;
                assert((d - b) * dx == if d > b {
                    dx as int
                } else {
                    0
                }) by (nonlinear_arith)
                    requires
                        d == b || d == b + 1,
                ;
                assert((c - a) * dy == if c > a {
                    dy as int
                } else {
                    0
                }) by (nonlinear_arith)
                    requires
                        c == a || c == a + 1,
                ;
                assert(done + (seq![(a, b)] + rest) =~= more + rest);
                done = more;
                a = c;
                b = d;
                left = (left - 1) as nat;
            }
        }
    }

    /// Fills a rectangle.
    pub fn fill_rect(&mut self, x0: i32, y0: i32, x1: i32, y1: i32, color: Color)
        requires
            old(self).wf(),
        ensures
            final(self).wf(),
            final(self).size() == old(self).size(),
            final(self).pixels() == tinted(
                old(self).pixels(),
                in_rect(x0 as int, y0 as int, x1 as int, y1 as int),
                color,
            ),
    {
        let ghost start = self.pixels();
        let (left, right): (i32, i32) = if x0 <= x1 {
            (x0, x1)
        } else {
            (x1, x0)
        };
        let (top, bottom): (i32, i32) = if y0 <= y1 {
            (y0, y1)
        } else {
            (y1, y0)
        };
        let mut y: i64 = top as i64;
        assert(start =~= tinted(start, |p: int, q: int| left <= p <= right && top <= q < y, color));
        while y <= bottom as i64
            invariant
                self.wf(),
                self.size() == old(self).size(),
                left <= right,
                top <= y <= bottom + 1,
                self.pixels() == tinted(
                    start,
                    |p: int, q: int| left <= p <= right && top <= q < y,
                    color,
                ),
            decreases bottom + 1 - y,
        {
            let ghost row = self.pixels();
            let mut x: i64 = left as i64;
            assert(row =~= tinted(row, |p: int, q: int| left <= p < x && q == y, color));
            while x <= right as i64
                invariant
                    self.wf(),
                    self.size() == old(self).size(),
                    left <= x <= right + 1,
                    self.pixels() == tinted(
                        row,
                        |p: int, q: int| left <= p < x && q == y,
                        color,
                    ),
                decreases right + 1 - x,
            {
                self.put(x, y, color);
                assert(self.pixels() =~= tinted(
                    row,
                    |p: int, q: int| left <= p < x + 1 && q == y,
                    color,
                ));
                x = x + 1;
            }
            assert(self.pixels() =~= tinted(
                start,
                |p: int, q: int| left <= p <= right && top <= q < y + 1,
                color,
            ));
            y = y + 1;
        }
        assert(self.pixels() =~= tinted(
            start,
            in_rect(x0 as int, y0 as int, x1 as int, y1 as int),
            color,
        ));
    }

    /// Draws the outline of a rectangle.
    pub fn draw_rect_outline(&mut self, x0: i32, y0: i32, x1: i32, y1: i32, color: Color)
        requires
            old(self).wf(),
        ensures
            final(self).wf(),
            final(self).size() == old(self).size(),
            ({
                let (a, b) = (x0 as int, y0 as int);
                let (c, d) = (x1 as int, y1 as int);
                let top = tinted(old(self).pixels(), on_line(a, b, c, b), color);
                let right = tinted(top, on_line(c, b, c, d), color);
                let bottom = tinted(right, on_line(c, d, a, d), color);
                final(self).pixels() == tinted(bottom, on_line(a, d, a, b), color)
            }),
    {
        self.draw_line(x0, y0, x1, y0, color);
        self.draw_line(x1, y0, x1, y1, color);
        self.draw_line(x1, y1, x0, y1, color);
        self.draw_line(x0, y1, x0, y0, color);
    }
}

/// One more place of a line colors one more pixel.
proof fn lemma_painted(
    start: Map<(u32, u32), Color>,
    before: Map<(u32, u32), Color>,
    after: Map<(u32, u32), Color>,
    from: (int, int),
    to: (int, int),
    done: Seq<(int, int)>,
    at: (int, int),
    color: Color,
)
    requires
        before == tinted(
            start,
            on_places(from.0, from.1, to.0, to.1, done),
            color,
        ),
        ({
            let here = line_pixel(from.0, from.1, to.0, to.1, at.0, at.1);
            after == tinted(before, at_place(here.0, here.1), color)
        }),
    ensures
        after == tinted(
            start,
            on_places(from.0, from.1, to.0, to.1, done.push(at)),
            color,
        ),
{
    let more = done.push(at);
    let here = line_pixel(from.0, from.1, to.0, to.1, at.0, at.1);
    assert forall|p: int, q: int| #[trigger]
        passes(from.0, from.1, to.0, to.1, more, p, q) <==> passes(
            from.0,
            from.1,
            to.0,
            to.1,
            done,
            p,
            q,
        ) || (p, q) == here by {
        if passes(from.0, from.1, to.0, to.1, done, p, q) {
            let i = choose|i: int|
                #![trigger done[i]]
                0 <= i < done.len() && line_pixel(
                    from.0,
                    from.1,
                    to.0,
                    to.1,
                    done[i].0,
                    done[i].1,
                ) == (p, q);
            assert(more[i] == done[i]);
        }
        if (p, q) == here {
            assert(more[done.len() as int] == at);
        }
        if passes(from.0, from.1, to.0, to.1, more, p, q) && (p, q) != here {
            let i = choose|i: int|
                #![trigger more[i]]
                0 <= i < more.len() && line_pixel(
                    from.0,
                    from.1,
                    to.0,
                    to.1,
                    more[i].0,
                    more[i].1,
                ) == (p, q);
            assert(done[i] == more[i]);
        }
    }
    assert(after =~= tinted(
        start,
        on_places(from.0, from.1, to.0, to.1, more),
        color,
    ));
}

/// A line colors both of its ends.
pub proof fn law_line_colors_its_ends(x0: int, y0: int, x1: int, y1: int)
    ensures
        on_line(x0, y0, x1, y1)(x0, y0),
        on_line(x0, y0, x1, y1)(x1, y1),
{
    let (dx, dy) = (distance(x0, x1), distance(y0, y1));
    law_line_joins_its_ends(dx, dy);
    let line = line_from(dx, dy, 0, 0, steps(dx, dy));
    lemma_passes(x0, y0, x1, y1, line, 0);
    lemma_passes(x0, y0, x1, y1, line, line.len() - 1);
}

proof fn lemma_passes(x0: int, y0: int, x1: int, y1: int, line: Seq<(int, int)>, i: int)
    requires
        0 <= i < line.len(),
    ensures
        ({
            let p = line_pixel(x0, y0, x1, y1, line[i].0, line[i].1);
            on_places(x0, y0, x1, y1, line)(p.0, p.1)
        }),
{
    let p = line_pixel(x0, y0, x1, y1, line[i].0, line[i].1);
    assert(passes(x0, y0, x1, y1, line, p.0, p.1));
}

/// The i-th place of a line in one direction alone.
proof fn lemma_straight(dx: int, dy: int, i: int)
    requires
        0 <= dx,
        0 <= dy,
        dx == 0 || dy == 0,
        0 <= i <= steps(dx, dy),
    ensures
        line_from(dx, dy, 0, 0, steps(dx, dy)).len() == steps(dx, dy) + 1,
        line_from(dx, dy, 0, 0, steps(dx, dy))[i] == if dx >= dy {
            (i, 0int)
        } else {
            (0int, i)
        },
    decreases i,
{
    law_line_joins_its_ends(dx, dy);
    let line = line_from(dx, dy, 0, 0, steps(dx, dy));
    assert(is_near(dx, dy, line[i].0, line[i].1));
    if i > 0 {
        lemma_straight(dx, dy, i - 1);
        assert(are_neighbours(dx, dy, line[i - 1], line[i]));
    }
}

/// A level line colors the pixels between its ends and no others, and so does an upright one.
pub proof fn law_straight_lines_are_filled(x0: int, y0: int, x1: int, y1: int, x: int, y: int)
    requires
        x0 == x1 || y0 == y1,
    ensures
        on_line(x0, y0, x1, y1)(x, y) <==> in_rect(x0, y0, x1, y1)(x, y),
{
    let (dx, dy) = (distance(x0, x1), distance(y0, y1));
    law_line_joins_its_ends(dx, dy);
    let line = line_from(dx, dy, 0, 0, steps(dx, dy));
    if passes(x0, y0, x1, y1, line, x, y) {
        let i = choose|i: int|
            #![trigger line[i]]
            0 <= i < line.len() && line_pixel(x0, y0, x1, y1, line[i].0, line[i].1) == (x, y);
        lemma_straight(dx, dy, i);
    }
    if in_rect(x0, y0, x1, y1)(x, y) {
        let i = if dx >= dy {
            distance(x0, x)
        } else {
            distance(y0, y)
        };
        lemma_straight(dx, dy, i);
        assert(line_pixel(x0, y0, x1, y1, line[i].0, line[i].1) == (x, y));
    }
}

/// The pixels where one of four lines passes.
pub open spec fn on_outline(x0: int, y0: int, x1: int, y1: int, x: int, y: int) -> bool {
    ||| on_line(x0, y0, x1, y0)(x, y)
    ||| on_line(x1, y0, x1, y1)(x, y)
    ||| on_line(x1, y1, x0, y1)(x, y)
    ||| on_line(x0, y1, x0, y0)(x, y)
}

/// The outline of a rectangle is its border: the pixels of the rectangle in its first or last
/// column or row.
pub proof fn law_outline_is_the_border(x0: int, y0: int, x1: int, y1: int, x: int, y: int)
    ensures
        on_outline(x0, y0, x1, y1, x, y) <==> in_rect(x0, y0, x1, y1)(x, y) && (x == x0 || x == x1
            || y == y0 || y == y1),
{
    law_straight_lines_are_filled(x0, y0, x1, y0, x, y);
    law_straight_lines_are_filled(x1, y0, x1, y1, x, y);
    law_straight_lines_are_filled(x1, y1, x0, y1, x, y);
    law_straight_lines_are_filled(x0, y1, x0, y0, x, y);
}

} // verus!

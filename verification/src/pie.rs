//! The circular progress rasterizer: maps a rectangular grid of character
//! cells to an approximated disc, fills it clockwise from 12 o'clock in
//! proportion to an elapsed-time fraction, and corrects for character cells
//! being taller than wide. All geometry is carried in thousandths of a cell
//! (for distances) and thousandths of a degree (for angles), so one scale
//! serves both the radial and the angular falloff.
use vstd::prelude::*;
use vstd::arithmetic::div_mod::{
    lemma_div_is_ordered, lemma_div_pos_is_pos, lemma_div_nonincreasing,
    lemma_div_multiples_vanish, lemma_fundamental_div_mod, lemma_fundamental_div_mod_converse,
    lemma_mod_bound,
};
use vstd::arithmetic::mul::lemma_mul_is_commutative;
use crate::phase::Color;

verus! {

/// Division truncating toward zero, as the hardware divides: the quotient
/// of the magnitudes, with the dividend's sign.
pub open spec fn tdiv(a: int, b: int) -> int {
    if a >= 0 {
        a / b
    } else {
        -((-a) / b)
    }
}

/// For a nonnegative dividend and positive bound `c` with `|a| <= c * b`,
/// the truncated quotient stays within `[-c, c]` and keeps the dividend's
/// sign.
proof fn lemma_tdiv_bound(a: int, b: int, c: int)
    requires
        0 < b,
        0 <= c,
        -(c * b) <= a <= c * b,
    ensures
        -c <= tdiv(a, b) <= c,
        a >= 0 ==> 0 <= tdiv(a, b),
        a < 0 ==> tdiv(a, b) <= 0,
{
    lemma_mul_is_commutative(c, b);
    lemma_div_multiples_vanish(c, b);
    if a >= 0 {
        lemma_div_pos_is_pos(a, b);
        lemma_div_is_ordered(a, c * b, b);
    } else {
        lemma_div_pos_is_pos(-a, b);
        lemma_div_is_ordered(-a, c * b, b);
    }
}

/// Runtime division truncating toward zero, done on magnitudes so that
/// only nonnegative machine division is ever used.
fn tdiv64(a: i64, b: i64) -> (r: i64)
    requires
        0 < b,
        i64::MIN < a,
    ensures
        r == tdiv(a as int, b as int),
        a >= 0 ==> 0 <= r <= a,
        a < 0 ==> a <= r <= 0,
{
    proof {
        if a >= 0 {
            lemma_div_pos_is_pos(a as int, b as int);
            lemma_div_nonincreasing(a as int, b as int);
        } else {
            lemma_div_pos_is_pos(-(a as int), b as int);
            lemma_div_nonincreasing(-(a as int), b as int);
        }
    }
    if a >= 0 {
        ((a as u64) / (b as u64)) as i64
    } else {
        let q = ((-a) as u64) / (b as u64);
        -(q as i64)
    }
}

/// Runtime division rounding toward negative infinity, as spec-level
/// division with a positive divisor does; done on magnitudes so that only
/// nonnegative machine division is ever used.
fn fdiv64(a: i64, b: i64) -> (r: i64)
    requires
        0 < b,
        i64::MIN + b <= a,
    ensures
        r == (a as int) / (b as int),
{
    if a >= 0 {
        proof {
            lemma_div_pos_is_pos(a as int, b as int);
            lemma_div_nonincreasing(a as int, b as int);
        }
        ((a as u64) / (b as u64)) as i64
    } else {
        proof {
            lemma_fundamental_div_mod(a as int, b as int);
            lemma_mod_bound(a as int, b as int);
            let q = (a as int) / (b as int);
            let m = (a as int) % (b as int);
            assert(-(a as int) + (b as int) - 1 == (-q) * (b as int) + ((b as int) - 1 - m))
                by (nonlinear_arith)
                requires
                    (a as int) == (b as int) * q + m,
            ;
            lemma_fundamental_div_mod_converse(
                -(a as int) + (b as int) - 1,
                b as int,
                -q,
                (b as int) - 1 - m,
            );
            lemma_div_pos_is_pos(-(a as int) + (b as int) - 1, b as int);
            lemma_div_nonincreasing(-(a as int) + (b as int) - 1, b as int);
        }
        let num = ((-a) as u64) + (b as u64) - 1;
        let q = num / (b as u64);
        -(q as i64)
    }
}

/// Whether `r` is the floor of the square root of `n`.
pub open spec fn is_sqrt_floor(n: int, r: int) -> bool {
    0 <= r && r * r <= n && n < (r + 1) * (r + 1)
}

/// The floor of the square root of a nonnegative integer.
pub open spec fn sqrt_floor(n: int) -> int {
    choose|r: int| is_sqrt_floor(n, r)
}

/// Two square-root floors of the same number are the same number.
proof fn lemma_sqrt_floor_unique(n: int, r: int)
    requires
        is_sqrt_floor(n, r),
    ensures
        sqrt_floor(n) == r,
{
    assert(is_sqrt_floor(n, sqrt_floor(n))) by {
        assert(is_sqrt_floor(n, r));
    }
    let c = sqrt_floor(n);
    if c < r {
        assert((c + 1) * (c + 1) <= r * r) by (nonlinear_arith)
            requires
                0 <= c,
                c < r,
        ;
    }
    if r < c {
        assert((r + 1) * (r + 1) <= c * c) by (nonlinear_arith)
            requires
                0 <= r,
                r < c,
        ;
    }
}

/// The floor of the square root, found by binary search over the result.
fn isqrt_u128(n: u128) -> (r: u128)
    ensures
        r * r <= n < (r + 1) * (r + 1),
        r == sqrt_floor(n as int),
{
    let mut lo: u128 = 0;
    let mut hi: u128 = 0x10000000000000000;
    proof {
        assert((0x10000000000000000 as int) * (0x10000000000000000 as int) > u128::MAX as int);
    }
    while lo + 1 < hi
        invariant
            lo < hi <= 0x10000000000000000,
            lo * lo <= n,
            (n as int) < (hi as int) * (hi as int),
        decreases hi - lo,
    {
        let mid = lo + (hi - lo) / 2;
        proof {
            assert(lo < mid < hi);
            assert((mid as int) * (mid as int) <= (0xffffffffffffffff as int) * (
            0xffffffffffffffff as int)) by (nonlinear_arith)
                requires
                    0 <= mid as int <= 0xffffffffffffffff,
            ;
        }
        if mid * mid <= n {
            lo = mid;
        } else {
            hi = mid;
        }
    }
    proof {
        lemma_sqrt_floor_unique(n as int, lo as int);
    }
    lo
}

/// The cubic correction polynomial of the octant-folded arctangent
/// approximation, in millidegrees, its argument scaled by 1000.
pub open spec fn octant_poly(r: int) -> int {
    45000 - tdiv(56248 * r, 1000) + tdiv(11248 * (r * r * r), 1000000000)
}

/// The angle of the vector (x, y) in millidegrees within (-203000, 203000],
/// close to the mathematical atan2 range of plus or minus 180 degrees, by a
/// two-octant rational approximation.
pub open spec fn spec_atan2_mdeg(y: int, x: int) -> int {
    if x == 0 && y == 0 {
        0
    } else {
        let ay = if y >= 0 {
            y
        } else {
            -y
        };
        let a = if x >= 0 {
            octant_poly(tdiv((x - ay) * 1000, x + ay))
        } else {
            90000 + octant_poly(tdiv((x + ay) * 1000, ay - x))
        };
        if y < 0 {
            -a
        } else {
            a
        }
    }
}

fn octant_poly_exec(rq: i64) -> (r: i64)
    requires
        -1000 <= rq <= 1000,
    ensures
        r == octant_poly(rq as int),
        -23000 <= r <= 113000,
{
    let t1 = tdiv64(56248 * rq, 1000);
    proof {
        lemma_tdiv_bound(56248 * rq as int, 1000, 56248);
    }
    proof {
        assert(0 <= (rq as int) * (rq as int) <= 1000000) by (nonlinear_arith)
            requires
                -1000 <= rq as int <= 1000,
        ;
    }
    let sq = rq * rq;
    proof {
        assert(-1000000000 <= (sq as int) * (rq as int) <= 1000000000) by (nonlinear_arith)
            requires
                0 <= sq as int <= 1000000,
                -1000 <= rq as int <= 1000,
        ;
    }
    let cube = sq * rq;
    let t2 = tdiv64(11248 * cube, 1000000000);
    proof {
        lemma_tdiv_bound(11248 * cube as int, 1000000000, 11248);
    }
    45000 - t1 + t2
}

fn atan2_mdeg(y: i64, x: i64) -> (r: i64)
    requires
        -100000000 <= y <= 100000000,
        -100000000 <= x <= 100000000,
    ensures
        r == spec_atan2_mdeg(y as int, x as int),
        -203000 <= r <= 203000,
{
    if x == 0 && y == 0 {
        return 0;
    }
    let ay: i64 = if y >= 0 {
        y
    } else {
        -y
    };
    let a: i64 = if x >= 0 {
        let den = x + ay;
        let rq = tdiv64((x - ay) * 1000, den);
        proof {
            lemma_tdiv_bound((x - ay) * 1000 as int, den as int, 1000);
        }
        octant_poly_exec(rq)
    } else {
        let den = ay - x;
        let rq = tdiv64((x + ay) * 1000, den);
        proof {
            lemma_tdiv_bound((x + ay) * 1000 as int, den as int, 1000);
        }
        90000 + octant_poly_exec(rq)
    };
    if y < 0 {
        -a
    } else {
        a
    }
}

/// The horizontal milli-cell offset of a cell from the grid center.
pub open spec fn dxm(w: int, x: int) -> int {
    1000 * x - 500 * w
}

/// The vertical milli-cell offset of a cell from the grid center.
pub open spec fn dym(h: int, y: int) -> int {
    1000 * y - 500 * h
}

/// The aspect-corrected squared distance of a cell from the grid center, in
/// squared milli-cells: the horizontal term is weighted by height over
/// width, so the rendered shape stays a circle in cells taller than wide.
pub open spec fn dist_sq_scaled(w: int, h: int, x: int, y: int) -> int {
    (dxm(w, x) * dxm(w, x) * h + dym(h, y) * dym(h, y) * w) / w
}

/// The disc radius in milli-cells: nine tenths of half the smaller grid
/// dimension, the remaining tenth kept as a margin to the region border.
pub open spec fn radius_milli(w: int, h: int) -> int {
    if w <= h {
        450 * w
    } else {
        450 * h
    }
}

/// The signed radial offset of a cell from the disc boundary, in
/// milli-cells: negative inside the disc.
pub open spec fn spec_cell_offset(w: int, h: int, x: int, y: int) -> int {
    sqrt_floor(dist_sq_scaled(w, h, x, y)) - radius_milli(w, h)
}

fn cell_offset(width: u16, height: u16, x: u16, y: u16) -> (r: i64)
    requires
        x < width,
        y < height,
    ensures
        r == spec_cell_offset(width as int, height as int, x as int, y as int),
        -29500000 <= r <= 47000000,
{
    let w = width as i64;
    let h = height as i64;
    let dx: i64 = 1000 * (x as i64) - 500 * w;
    let dy: i64 = 1000 * (y as i64) - 500 * h;
    proof {
        assert(0 <= (dx as int) * (dx as int) <= 1073709056250000 && (dx as int) * (dx as int)
            <= 250000 * (width as int) * (width as int)) by (nonlinear_arith)
            requires
                -(500 * (width as int)) <= dx as int <= 500 * (width as int),
                width as int <= 65535,
        ;
        assert(0 <= (dy as int) * (dy as int) <= 1073709056250000 && (dy as int) * (dy as int)
            <= 250000 * (height as int) * (height as int)) by (nonlinear_arith)
            requires
                -(500 * (height as int)) <= dy as int <= 500 * (height as int),
                height as int <= 65535,
        ;
    }
    let dx2: i64 = dx * dx;
    let dy2: i64 = dy * dy;
    proof {
        assert((dx2 as int) * (height as int) <= 1073709056250000 * 65535) by (nonlinear_arith)
            requires
                0 <= dx2 as int <= 1073709056250000,
                0 < height as int <= 65535,
        ;
        assert((dy2 as int) * (width as int) <= 1073709056250000 * 65535) by (nonlinear_arith)
            requires
                0 <= dy2 as int <= 1073709056250000,
                0 < width as int <= 65535,
        ;
    }
    let num: u128 = (dx2 as u128) * (height as u128) + (dy2 as u128) * (width as u128);
    let q: u128 = num / (width as u128);
    let ghost k: int = 250000 * ((width as int) * (height as int)) + 250000 * ((height as int) * (
    height as int));
    proof {
        assert(num as int <= (width as int) * k && k <= 2147418112500000 && 0 <= k)
            by (nonlinear_arith)
            requires
                (dx2 as int) <= 250000 * (width as int) * (width as int),
                (dy2 as int) <= 250000 * (height as int) * (height as int),
                0 <= dx2 as int,
                0 <= dy2 as int,
                num as int == (dx2 as int) * (height as int) + (dy2 as int) * (width as int),
                1 <= width as int <= 65535,
                1 <= height as int <= 65535,
                k == 250000 * ((width as int) * (height as int)) + 250000 * ((height as int) * (
                height as int)),
        ;
        lemma_div_is_ordered(num as int, (width as int) * k, width as int);
        lemma_div_multiples_vanish(k, width as int);
        assert(q as int <= k);
    }
    let s: u128 = isqrt_u128(q);
    proof {
        assert(s as int <= 46341000) by (nonlinear_arith)
            requires
                (s as int) * (s as int) <= q as int,
                q as int <= 2147418112500000,
                0 <= s as int,
        ;
    }
    let rad: i64 = if width <= height {
        450 * w
    } else {
        450 * h
    };
    (s as i64) - rad
}

/// The cell's angle from the grid center in millidegrees, measured
/// clockwise from the 12-o'clock direction and wrapped into [0, 360000).
pub open spec fn spec_cell_angle(w: int, h: int, x: int, y: int) -> int {
    let raw = spec_atan2_mdeg(-dym(h, y), -dxm(w, x)) - 90000;
    if raw < 0 {
        raw + 360000
    } else {
        raw
    }
}

fn cell_angle(width: u16, height: u16, x: u16, y: u16) -> (r: i64)
    requires
        x < width,
        y < height,
    ensures
        r == spec_cell_angle(width as int, height as int, x as int, y as int),
        0 <= r < 360000,
{
    let ndx: i64 = 500 * (width as i64) - 1000 * (x as i64);
    let ndy: i64 = 500 * (height as i64) - 1000 * (y as i64);
    let raw = atan2_mdeg(ndy, ndx) - 90000;
    if raw < 0 {
        raw + 360000
    } else {
        raw
    }
}

/// The filled-arc boundary in millidegrees: 360 degrees times the fill
/// fraction clamped into [0, 1], and the whole circle when no fraction is
/// supplied.
pub open spec fn target_mdeg(fill_permille: Option<u32>) -> int {
    match fill_permille {
        Option::None => 360000,
        Option::Some(p) => 360 * (if p > 1000 {
            1000int
        } else {
            p as int
        }),
    }
}

fn target_angle_mdeg(fill_permille: Option<u32>) -> (r: i64)
    ensures
        r == target_mdeg(fill_permille),
        0 <= r <= 360000,
{
    match fill_permille {
        Option::None => 360000,
        Option::Some(p) => {
            let c: u32 = if p > 1000 {
                1000
            } else {
                p
            };
            360 * (c as i64)
        },
    }
}

/// The falloff value that picks a cell's shading: the larger of the radial
/// offset and a third of the angular overshoot past the filled arc, the
/// third softening the wedge boundary as the radial buckets soften the
/// rim. The third rounds toward negative infinity, so a cell even a hair
/// inside the filled arc keeps a negative angular term.
pub open spec fn spec_effective_off(w: int, h: int, target: int, x: int, y: int) -> int {
    let off = spec_cell_offset(w, h, x, y);
    let soft = (spec_cell_angle(w, h, x, y) - target) / 3;
    if off >= soft {
        off
    } else {
        soft
    }
}

/// Computes the falloff value of one cell for a given fill fraction in
/// thousandths.
pub fn effective_offset(width: u16, height: u16, fill_permille: Option<u32>, x: u16, y: u16) -> (r:
    i64)
    requires
        x < width,
        y < height,
    ensures
        r == spec_effective_off(
            width as int,
            height as int,
            target_mdeg(fill_permille),
            x as int,
            y as int,
        ),
{
    let off = cell_offset(width, height, x, y);
    let ang = cell_angle(width, height, x, y);
    let target = target_angle_mdeg(fill_permille);
    let soft = fdiv64(ang - target, 3);
    if off >= soft {
        off
    } else {
        soft
    }
}

/// The sparsest shading glyph: light shade.
pub const BLOCK_LIGHT: char = '\u{2591}';

/// The middle shading glyph: medium shade.
pub const BLOCK_MEDIUM: char = '\u{2592}';

/// The densest partial shading glyph: dark shade.
pub const BLOCK_DARK: char = '\u{2593}';

/// The fully solid glyph: full block.
pub const BLOCK_FULL: char = '\u{2588}';

/// The glyph a falloff value maps to: the full block strictly inside,
/// three ever-lighter shades across the softened edge, and no glyph at all
/// beyond it.
pub open spec fn glyph_for(off: int) -> Option<char> {
    if off < 0 {
        Some(BLOCK_FULL)
    } else if off < 250 {
        Some(BLOCK_DARK)
    } else if off < 500 {
        Some(BLOCK_MEDIUM)
    } else if off < 800 {
        Some(BLOCK_LIGHT)
    } else {
        None
    }
}

/// Maps a falloff value in milli-units to its shading glyph.
pub fn glyph_for_offset(off: i64) -> (r: Option<char>)
    ensures
        r == glyph_for(off as int),
        off < 0 ==> r == Some(BLOCK_FULL),
{
    if off < 0 {
        Some(BLOCK_FULL)
    } else if off < 250 {
        Some(BLOCK_DARK)
    } else if off < 500 {
        Some(BLOCK_MEDIUM)
    } else if off < 800 {
        Some(BLOCK_LIGHT)
    } else {
        None
    }
}

/// One character cell of a rendered frame: an optional shading glyph, and
/// the foreground color it is drawn with.
#[derive(Clone, Copy, Debug, PartialEq, Eq)]
pub struct Cell {
    pub glyph: Option<char>,
    pub color: Color,
}

/// A rendered frame: one row of cells per cell row of the target region,
/// recomputed from scratch at every call.
#[derive(Clone, Debug, PartialEq, Eq)]
pub struct Frame {
    pub width: u16,
    pub height: u16,
    pub rows: Vec<Vec<Cell>>,
}

impl Frame {
    /// The frame covers its region: one row per cell row, each row as wide
    /// as the region.
    pub open spec fn wf(&self) -> bool {
        &&& self.rows@.len() == self.height as int
        &&& forall|yy: int|
            0 <= yy < self.height as int ==> (#[trigger] self.rows@[yy])@.len()
                == self.width as int
    }
}

/// The color every rendered cell carries: the supplied foreground color,
/// or red when none is given.
pub open spec fn spec_fill_color(c: Option<Color>) -> Color {
    match c {
        Option::None => Color::Red,
        Option::Some(col) => col,
    }
}

/// The circular progress widget: an elapsed fraction in thousandths (none
/// meaning the idle full disc) and an optional foreground color.
pub struct Pie {
    pub fill_permille: Option<u32>,
    pub color: Option<Color>,
}

impl Default for Pie {
    /// The idle widget: no fill fraction, so the full disc, in the default
    /// color.
    fn default() -> (r: Self)
        ensures
            r.fill_permille is None,
            r.color is None,
    {
        Pie { fill_permille: None, color: None }
    }
}

impl Pie {
    /// Rasterizes the disc onto a region of the given size. Every cell gets
    /// the glyph its falloff value maps to and the widget's color; a region
    /// with either dimension zero yields a frame with no cells.
    pub fn render(&self, width: u16, height: u16) -> (f: Frame)
        ensures
            f.width == width,
            f.height == height,
            f.wf(),
            forall|yy: int, xx: int|
                0 <= yy < height as int && 0 <= xx < width as int ==> (#[trigger] f.rows@[yy]@[xx])
                    == (Cell {
                    glyph: glyph_for(
                        spec_effective_off(
                            width as int,
                            height as int,
                            target_mdeg(self.fill_permille),
                            xx,
                            yy,
                        ),
                    ),
                    color: spec_fill_color(self.color),
                }),
    {
        let color = match self.color {
            Option::None => Color::Red,
            Option::Some(c) => c,
        };
        let mut rows: Vec<Vec<Cell>> = Vec::new();
        let mut y: u16 = 0;
        while y < height
            invariant
                y <= height,
                rows@.len() == y as int,
                forall|yy: int|
                    0 <= yy < y as int ==> (#[trigger] rows@[yy])@.len() == width as int,
                forall|yy: int, xx: int|
                    0 <= yy < y as int && 0 <= xx < width as int ==> (#[trigger] rows@[yy]@[xx])
                        == (Cell {
                        glyph: glyph_for(
                            spec_effective_off(
                                width as int,
                                height as int,
                                target_mdeg(self.fill_permille),
                                xx,
                                yy,
                            ),
                        ),
                        color: spec_fill_color(self.color),
                    }),
                color == spec_fill_color(self.color),
            decreases height - y,
        {
            let mut row: Vec<Cell> = Vec::new();
            let mut x: u16 = 0;
            while x < width
                invariant
                    x <= width,
                    y < height,
                    row@.len() == x as int,
                    forall|xx: int|
                        0 <= xx < x as int ==> (#[trigger] row@[xx]) == (Cell {
                            glyph: glyph_for(
                                spec_effective_off(
                                    width as int,
                                    height as int,
                                    target_mdeg(self.fill_permille),
                                    xx,
                                    y as int,
                                ),
                            ),
                            color: spec_fill_color(self.color),
                        }),
                    color == spec_fill_color(self.color),
                decreases width - x,
            {
                let e = effective_offset(width, height, self.fill_permille, x, y);
                let g = glyph_for_offset(e);
                row.push(Cell { glyph: g, color });
                x = x + 1;
            }
            rows.push(row);
            y = y + 1;
        }
        Frame { width, height, rows }
    }
}

/// Whatever the fill fraction, a cell whose falloff value is negative --
/// one strictly inside both the disc and the filled wedge -- is drawn as
/// the full block glyph.
pub proof fn lemma_interior_cell_is_full_block(w: int, h: int, target: int, x: int, y: int)
    requires
        spec_effective_off(w, h, target, x, y) < 0,
    ensures
        glyph_for(spec_effective_off(w, h, target, x, y)) == Some(BLOCK_FULL),
{
}

/// Leaving the fill fraction out aims at the same 360-degree arc as a full
/// (or over-full, since it is clamped) fraction does.
pub proof fn lemma_no_fraction_aims_full(p: u32)
    requires
        p >= 1000,
    ensures
        target_mdeg(Some(p)) == target_mdeg(None),
{
}

/// Rendering with no fill fraction shades every cell exactly as rendering
/// with the full fraction does: the idle look is the closed full disc.
pub proof fn lemma_no_fraction_renders_full(w: int, h: int, x: int, y: int)
    ensures
        glyph_for(spec_effective_off(w, h, target_mdeg(None), x, y)) == glyph_for(
            spec_effective_off(w, h, target_mdeg(Some(1000)), x, y),
        ),
{
}

/// Every nonnegative integer has a square-root floor, so the chosen one
/// satisfies its defining property.
proof fn lemma_sqrt_floor_exists(n: int)
    requires
        0 <= n,
    ensures
        is_sqrt_floor(n, sqrt_floor(n)),
    decreases n,
{
    if n == 0 {
        assert(is_sqrt_floor(0, 0));
    } else {
        lemma_sqrt_floor_exists(n - 1);
        let r = sqrt_floor(n - 1);
        if (r + 1) * (r + 1) <= n {
            assert(is_sqrt_floor(n, r + 1)) by (nonlinear_arith)
                requires
                    0 <= r,
                    (r + 1) * (r + 1) <= n,
                    n - 1 < (r + 1) * (r + 1),
            ;
        } else {
            assert(is_sqrt_floor(n, r));
        }
    }
}

proof fn lemma_octant_poly_range(r: int)
    requires
        -1000 <= r <= 1000,
    ensures
        -22496 <= octant_poly(r) <= 112496,
{
    lemma_tdiv_bound(56248 * r, 1000, 56248);
    assert(-1000000000 <= r * r * r <= 1000000000) by (nonlinear_arith)
        requires
            -1000 <= r <= 1000,
    ;
    lemma_tdiv_bound(11248 * (r * r * r), 1000000000, 11248);
}

proof fn lemma_atan2_mdeg_range(y: int, x: int)
    ensures
        -202496 <= spec_atan2_mdeg(y, x) <= 202496,
{
    if x == 0 && y == 0 {
    } else {
        let ay = if y >= 0 {
            y
        } else {
            -y
        };
        if x >= 0 {
            lemma_tdiv_bound((x - ay) * 1000, x + ay, 1000);
            lemma_octant_poly_range(tdiv((x - ay) * 1000, x + ay));
        } else {
            lemma_tdiv_bound((x + ay) * 1000, ay - x, 1000);
            lemma_octant_poly_range(tdiv((x + ay) * 1000, ay - x));
        }
    }
}

proof fn lemma_cell_angle_range(w: int, h: int, x: int, y: int)
    ensures
        0 <= spec_cell_angle(w, h, x, y) < 360000,
{
    lemma_atan2_mdeg_range(-dym(h, y), -dxm(w, x));
}

/// With the whole 360-degree arc filled, the angular term is strictly
/// negative for every cell, so a cell is shaded as a full block exactly
/// when it lies strictly inside the disc: the filled shape is the whole
/// disc, whatever the region's aspect.
pub proof fn lemma_full_fill_is_radial(w: int, h: int, x: int, y: int)
    ensures
        (spec_effective_off(w, h, target_mdeg(None), x, y) < 0) <==> (spec_cell_offset(w, h, x, y)
            < 0),
{
    lemma_cell_angle_range(w, h, x, y);
    let aoff = spec_cell_angle(w, h, x, y) - 360000;
    lemma_div_is_ordered(aoff, -1, 3);
    lemma_fundamental_div_mod_converse(-1, 3, -1, 2);
}

/// Aspect correction, stated in general. On the vertical midline of a
/// region of even height, where the vertical offset vanishes, a cell lies
/// strictly inside the disc exactly when its squared horizontal
/// milli-offset weighted by the height stays below the squared radius
/// weighted by the width. The width enters the left side only through that
/// weight, which is the configured height-over-width ratio scaled by the
/// width: so the admissible horizontal extent around the center widens by
/// exactly the square root of width over height, as against a square
/// region of the same height.
pub proof fn lemma_midline_aspect(w: int, h: int, x: int)
    requires
        1 <= w,
        1 <= h,
        h % 2 == 0,
        0 <= x < w,
    ensures
        (spec_cell_offset(w, h, x, h / 2) < 0) <==> (dxm(w, x) * dxm(w, x) * h < (radius_milli(
            w,
            h,
        ) * radius_milli(w, h)) * w),
{
    let y = h / 2;
    lemma_fundamental_div_mod(h, 2);
    assert(dym(h, y) == 0);
    let dx = dxm(w, x);
    assert(dym(h, y) * dym(h, y) * w == 0) by (nonlinear_arith)
        requires
            dym(h, y) == 0,
    ;
    let a = dx * dx * h;
    assert(0 <= a) by (nonlinear_arith)
        requires
            1 <= h,
            a == dx * dx * h,
    ;
    let q = a / w;
    lemma_div_pos_is_pos(a, w);
    lemma_sqrt_floor_exists(q);
    let s = sqrt_floor(q);
    let rad = radius_milli(w, h);
    let c = rad * rad;
    if s < rad {
        assert(q < c) by (nonlinear_arith)
            requires
                q < (s + 1) * (s + 1),
                s + 1 <= rad,
                0 <= s,
                c == rad * rad,
        ;
    } else {
        assert(c <= q) by (nonlinear_arith)
            requires
                s * s <= q,
                rad <= s,
                0 <= rad,
                c == rad * rad,
        ;
    }
    assert(c * w - 1 == (c - 1) * w + (w - 1)) by (nonlinear_arith);
    lemma_fundamental_div_mod_converse(c * w - 1, w, c - 1, w - 1);
    lemma_mul_is_commutative(c, w);
    lemma_div_multiples_vanish(c, w);
    if a < c * w {
        lemma_div_is_ordered(a, c * w - 1, w);
    } else {
        lemma_div_is_ordered(c * w, a, w);
    }
}

} // verus!

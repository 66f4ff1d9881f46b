//! Three-dimensional color lookup tables and their tetrahedral application
//! to 8-bit RGB pixel buffers.
//!
//! Table values are fixed-point numbers: a stored value `v` stands for the
//! color component `v / ONE`, where `ONE` means full intensity.
use vstd::prelude::*;
use vstd::arithmetic::div_mod::lemma_fundamental_div_mod_converse;
use rayon::iter::{IndexedParallelIterator, ParallelIterator};
use rayon::slice::ParallelSliceMut;

verus! {

/// Fixed-point scale of table values: `ONE` stands for a component of 1.0.
pub const ONE: i64 = 1_000_000;

/// Largest magnitude of a value held in a well-formed table (2^41).
pub const MAX_ENTRY: i64 = 0x200_0000_0000;

/// Largest accepted table size (grid points per axis).
pub const MAX_LEVEL: usize = 65;

/// A color triple in fixed point (see `ONE`).
#[derive(Clone, Copy, Debug, PartialEq, Eq, Structural)]
pub struct Rgb {
    pub r: i64,
    pub g: i64,
    pub b: i64,
}

/// Component `k` (0 red, 1 green, 2 blue) of a color.
pub open spec fn channel(c: Rgb, k: int) -> int {
    if k == 0 {
        c.r as int
    } else if k == 1 {
        c.g as int
    } else {
        c.b as int
    }
}

pub open spec fn rgb_bounded(c: Rgb) -> bool {
    &&& -MAX_ENTRY <= c.r <= MAX_ENTRY
    &&& -MAX_ENTRY <= c.g <= MAX_ENTRY
    &&& -MAX_ENTRY <= c.b <= MAX_ENTRY
}

/// Position of grid point `(i, j, k)` in the flat table of a size-`n` grid:
/// red varies fastest, blue slowest.
pub open spec fn grid_index(n: int, i: int, j: int, k: int) -> int {
    i + n * j + n * n * k
}

/// A cubic grid of colors indexed by red, green and blue grid coordinates.
#[derive(Debug)]
pub struct LUT3DContext {
    /// Grid points, in the order of `grid_index`.
    pub lut: Vec<Rgb>,
    /// Grid points per axis.
    pub lutsize: usize,
}

impl LUT3DContext {
    pub open spec fn wf(&self) -> bool {
        &&& 2 <= self.lutsize <= MAX_LEVEL
        &&& self.lut@.len() == self.lutsize * self.lutsize * self.lutsize
        &&& forall|n: int| 0 <= n < self.lut@.len() ==> rgb_bounded(#[trigger] self.lut@[n])
    }

    /// The color stored at grid point `(i, j, k)`.
    pub open spec fn at(&self, i: int, j: int, k: int) -> Rgb {
        self.lut@[grid_index(self.lutsize as int, i, j, k)]
    }

    /// A table of `lutsize` points per axis, all black.
    pub fn new(lutsize: usize) -> (r: LUT3DContext)
        requires
            2 <= lutsize <= MAX_LEVEL,
        ensures
            r.wf(),
            r.lutsize == lutsize,
            forall|n: int| 0 <= n < r.lut@.len() ==> r.lut@[n] == (Rgb { r: 0, g: 0, b: 0 }),
    {
        proof {
            lemma_cube_fits(lutsize as int);
        }
        let total: usize = lutsize * lutsize * lutsize;
        let mut lut: Vec<Rgb> = Vec::new();
        while lut.len() < total
            invariant
                lut@.len() <= total,
                forall|n: int| 0 <= n < lut@.len() ==> lut@[n] == (Rgb { r: 0, g: 0, b: 0 }),
            decreases total - lut@.len(),
        {
            lut.push(Rgb { r: 0, g: 0, b: 0 });
        }
        LUT3DContext { lut, lutsize }
    }

    /// The color stored at grid point `(i, j, k)`.
    pub fn get(&self, i: usize, j: usize, k: usize) -> (r: Rgb)
        requires
            self.wf(),
            i < self.lutsize,
            j < self.lutsize,
            k < self.lutsize,
        ensures
            r == self.at(i as int, j as int, k as int),
            rgb_bounded(r),
    {
        let n = self.lutsize;
        proof {
            lemma_cube_fits(n as int);
            lemma_grid_index_bound(n as int, i as int, j as int, k as int);
        }
        self.lut[i + n * j + n * n * k]
    }
}

pub proof fn lemma_cube_fits(n: int)
    requires
        0 <= n <= MAX_LEVEL,
    ensures
        0 <= n * n <= 4225,
        0 <= n * n * n <= 274625,
{
    assert(0 <= n * n <= 4225) by (nonlinear_arith)
        requires 0 <= n <= 65;
    assert(0 <= n * n * n <= 274625) by (nonlinear_arith)
        requires 0 <= n <= 65, 0 <= n * n <= 4225;
}

pub proof fn lemma_grid_index_bound(n: int, i: int, j: int, k: int)
    requires
        0 <= i < n,
        0 <= j < n,
        0 <= k < n,
    ensures
        0 <= grid_index(n, i, j, k) < n * n * n,
        n * j <= n * (n - 1),
        n * n * k <= n * n * (n - 1),
{
    assert(n * j <= n * (n - 1)) by (nonlinear_arith)
        requires 0 <= j < n;
    assert(n * n * k <= n * n * (n - 1)) by (nonlinear_arith)
        requires 0 <= k < n;
    assert(0 <= n * j && 0 <= n * n * k) by (nonlinear_arith)
        requires 0 <= j, 0 <= k, 0 <= n;
    assert((n - 1) + n * (n - 1) + n * n * (n - 1) == n * n * n - 1) by (nonlinear_arith);
}

// ---------------------------------------------------------------------------
// Grid coordinates of an 8-bit sample
// ---------------------------------------------------------------------------

/// Lower grid coordinate of sample `s` on a size-`n` grid: `floor(s * (n-1) / 255)`.
pub open spec fn lo_of(n: int, s: int) -> int {
    s * (n - 1) / 255
}

/// Upper grid coordinate: one past the lower one, kept inside the grid.
pub open spec fn hi_of(n: int, s: int) -> int {
    if lo_of(n, s) + 1 < n {
        lo_of(n, s) + 1
    } else {
        n - 1
    }
}

/// Fractional offset from the lower grid coordinate, in 255ths.
pub open spec fn frac_of(n: int, s: int) -> int {
    s * (n - 1) % 255
}

pub proof fn lemma_grid_pos(n: int, s: int)
    requires
        2 <= n <= MAX_LEVEL,
        0 <= s <= 255,
    ensures
        0 <= lo_of(n, s) <= n - 1,
        0 <= hi_of(n, s) <= n - 1,
        0 <= frac_of(n, s) < 255,
        lo_of(n, s) * 255 + frac_of(n, s) == s * (n - 1),
        lo_of(n, s) == n - 1 ==> frac_of(n, s) == 0,
        hi_of(n, s) == lo_of(n, s) || hi_of(n, s) == lo_of(n, s) + 1,
{
    let t = s * (n - 1);
    assert(0 <= t <= 255 * (n - 1)) by (nonlinear_arith)
        requires 0 <= s <= 255, 2 <= n, t == s * (n - 1);
    vstd::arithmetic::div_mod::lemma_fundamental_div_mod(t, 255);
    let q = t / 255;
    let r = t % 255;
    assert(0 <= r < 255);
    assert(q * 255 == t - r);
    assert(0 <= q <= n - 1) by (nonlinear_arith)
        requires q * 255 == t - r, 0 <= r < 255, 0 <= t <= 255 * (n - 1);
    if q == n - 1 {
        assert(r == 0) by (nonlinear_arith)
            requires q * 255 == t - r, 0 <= r < 255, t <= 255 * (n - 1), q == n - 1;
    }
}

/// Grid cell of one sample: lower coordinate, upper coordinate, fraction.
fn grid_pos(n: usize, s: u8) -> (res: (usize, usize, i64))
    requires
        2 <= n <= MAX_LEVEL,
    ensures
        res.0 == lo_of(n as int, s as int),
        res.1 == hi_of(n as int, s as int),
        res.2 == frac_of(n as int, s as int),
{
    proof {
        lemma_grid_pos(n as int, s as int);
    }
    let t: usize = (s as usize) * (n - 1);
    let lo: usize = t / 255;
    let hi: usize = if lo + 1 < n { lo + 1 } else { n - 1 };
    (lo, hi, (t % 255) as i64)
}

// ---------------------------------------------------------------------------
// Tetrahedral interpolation
// ---------------------------------------------------------------------------

/// The axes (0 red, 1 green, 2 blue) ordered by decreasing fractional offset.
/// The six outcomes are the six tetrahedra that partition a grid cell.
pub open spec fn axis_order(dr: int, dg: int, db: int) -> (int, int, int) {
    if dr > dg {
        if dg > db {
            (0, 1, 2)
        } else if dr > db {
            (0, 2, 1)
        } else {
            (2, 0, 1)
        }
    } else {
        if db > dg {
            (2, 1, 0)
        } else if db > dr {
            (1, 2, 0)
        } else {
            (1, 0, 2)
        }
    }
}

/// Component `k` of a triple.
pub open spec fn pick(k: int, t: (int, int, int)) -> int {
    if k == 0 {
        t.0
    } else if k == 1 {
        t.1
    } else {
        t.2
    }
}

/// The corner of the cell `lo..hi` that takes the upper coordinate on the
/// axes marked in `up`.
pub open spec fn corner(
    lut: &LUT3DContext,
    lo: (int, int, int),
    hi: (int, int, int),
    up: (bool, bool, bool),
) -> Rgb {
    lut.at(
        if up.0 { hi.0 } else { lo.0 },
        if up.1 { hi.1 } else { lo.1 },
        if up.2 { hi.2 } else { lo.2 },
    )
}

/// Component `ch` of the tetrahedral interpolation of the sample `(r, g, b)`,
/// multiplied by 255: the four corners of the tetrahedron that holds the
/// sample, weighted by the differences of its sorted fractional offsets.
pub open spec fn tetra_channel(lut: &LUT3DContext, r: u8, g: u8, b: u8, ch: int) -> int {
    let n = lut.lutsize as int;
    let lo = (lo_of(n, r as int), lo_of(n, g as int), lo_of(n, b as int));
    let hi = (hi_of(n, r as int), hi_of(n, g as int), hi_of(n, b as int));
    let d = (frac_of(n, r as int), frac_of(n, g as int), frac_of(n, b as int));
    let o = axis_order(d.0, d.1, d.2);
    let (da, db, dc) = (pick(o.0, d), pick(o.1, d), pick(o.2, d));
    let v0 = corner(lut, lo, hi, (false, false, false));
    let v1 = corner(lut, lo, hi, (o.0 == 0, o.0 == 1, o.0 == 2));
    let v2 = corner(lut, lo, hi, (o.0 == 0 || o.1 == 0, o.0 == 1 || o.1 == 1, o.0 == 2 || o.1 == 2));
    let v3 = corner(lut, lo, hi, (true, true, true));
    (255 - da) * channel(v0, ch) + (da - db) * channel(v1, ch) + (db - dc) * channel(v2, ch) + dc
        * channel(v3, ch)
}

pub proof fn lemma_axis_order(dr: int, dg: int, db: int)
    ensures
        ({
            let o = axis_order(dr, dg, db);
            let d = (dr, dg, db);
            &&& pick(o.0, d) >= pick(o.1, d) >= pick(o.2, d)
            &&& o.0 != o.1 && o.1 != o.2 && o.0 != o.2
            &&& 0 <= o.0 <= 2 && 0 <= o.1 <= 2 && 0 <= o.2 <= 2
        }),
{
}

fn pick3(k: usize, t: (i64, i64, i64)) -> (r: i64)
    ensures
        r == pick(k as int, (t.0 as int, t.1 as int, t.2 as int)),
{
    if k == 0 {
        t.0
    } else if k == 1 {
        t.1
    } else {
        t.2
    }
}

fn order_axes(dr: i64, dg: i64, db: i64) -> (o: (usize, usize, usize))
    ensures
        (o.0 as int, o.1 as int, o.2 as int) == axis_order(dr as int, dg as int, db as int),
{
    if dr > dg {
        if dg > db {
            (0, 1, 2)
        } else if dr > db {
            (0, 2, 1)
        } else {
            (2, 0, 1)
        }
    } else {
        if db > dg {
            (2, 1, 0)
        } else if db > dr {
            (1, 2, 0)
        } else {
            (1, 0, 2)
        }
    }
}

/// `w * c` for a weight in `0..=255` and a bounded value.
fn weigh(w: i64, c: i64) -> (r: i64)
    requires
        0 <= w <= 255,
        -MAX_ENTRY <= c <= MAX_ENTRY,
    ensures
        r == w * c,
        -255 * MAX_ENTRY <= r <= 255 * MAX_ENTRY,
{
    assert(-255 * MAX_ENTRY <= w * c <= 255 * MAX_ENTRY) by (nonlinear_arith)
        requires 0 <= w <= 255, -MAX_ENTRY <= c <= MAX_ENTRY;
    w * c
}

impl LUT3DContext {
    fn corner_of(
        &self,
        lo: (usize, usize, usize),
        hi: (usize, usize, usize),
        up: (bool, bool, bool),
    ) -> (r: Rgb)
        requires
            self.wf(),
            lo.0 < self.lutsize && lo.1 < self.lutsize && lo.2 < self.lutsize,
            hi.0 < self.lutsize && hi.1 < self.lutsize && hi.2 < self.lutsize,
        ensures
            r == corner(
                self,
                (lo.0 as int, lo.1 as int, lo.2 as int),
                (hi.0 as int, hi.1 as int, hi.2 as int),
                up,
            ),
            rgb_bounded(r),
    {
        self.get(
            if up.0 { hi.0 } else { lo.0 },
            if up.1 { hi.1 } else { lo.1 },
            if up.2 { hi.2 } else { lo.2 },
        )
    }
}

/// Tetrahedral interpolation of the 8-bit sample `(r, g, b)` in the table.
/// Each component of the result is the interpolated value times 255, in the
/// table's fixed point.
pub fn interp_tetrahedral(lut3d: &LUT3DContext, r: u8, g: u8, b: u8) -> (c: Rgb)
    requires
        lut3d.wf(),
    ensures
        c.r == tetra_channel(lut3d, r, g, b, 0),
        c.g == tetra_channel(lut3d, r, g, b, 1),
        c.b == tetra_channel(lut3d, r, g, b, 2),
        ({
            let n = lut3d.lutsize as int;
            let v = lut3d.at(lo_of(n, r as int), lo_of(n, g as int), lo_of(n, b as int));
            frac_of(n, r as int) == 0 && frac_of(n, g as int) == 0 && frac_of(n, b as int) == 0
                ==> c.r == 255 * v.r && c.g == 255 * v.g && c.b == 255 * v.b
        }),
{
    let n = lut3d.lutsize;
    let (lr, hr, dr) = grid_pos(n, r);
    let (lg, hg, dg) = grid_pos(n, g);
    let (lb, hb, db) = grid_pos(n, b);
    proof {
        lemma_grid_pos(n as int, r as int);
        lemma_grid_pos(n as int, g as int);
        lemma_grid_pos(n as int, b as int);
        lemma_axis_order(dr as int, dg as int, db as int);
    }
    let lo = (lr, lg, lb);
    let hi = (hr, hg, hb);
    let d = (dr, dg, db);
    let o = order_axes(dr, dg, db);
    let da = pick3(o.0, d);
    let dbb = pick3(o.1, d);
    let dc = pick3(o.2, d);
    let v0 = lut3d.corner_of(lo, hi, (false, false, false));
    let v1 = lut3d.corner_of(lo, hi, (o.0 == 0, o.0 == 1, o.0 == 2));
    let v2 = lut3d.corner_of(lo, hi, (o.0 == 0 || o.1 == 0, o.0 == 1 || o.1 == 1, o.0 == 2 || o.1 == 2));
    let v3 = lut3d.corner_of(lo, hi, (true, true, true));
    let w0 = 255 - da;
    let w1 = da - dbb;
    let w2 = dbb - dc;
    let w3 = dc;
    proof {
        if dr == 0 && dg == 0 && db == 0 {
            assert(w0 == 255 && w1 == 0 && w2 == 0 && w3 == 0);
            assert(w1 * v1.r == 0 && w2 * v2.r == 0 && w3 * v3.r == 0);
            assert(w1 * v1.g == 0 && w2 * v2.g == 0 && w3 * v3.g == 0);
            assert(w1 * v1.b == 0 && w2 * v2.b == 0 && w3 * v3.b == 0);
        }
    }
    Rgb {
        r: weigh(w0, v0.r) + weigh(w1, v1.r) + weigh(w2, v2.r) + weigh(w3, v3.r),
        g: weigh(w0, v0.g) + weigh(w1, v1.g) + weigh(w2, v2.g) + weigh(w3, v3.g),
        b: weigh(w0, v0.b) + weigh(w1, v1.b) + weigh(w2, v2.b) + weigh(w3, v3.b),
    }
}

/// Nearest grid coordinate of sample `s` on a size-`n` grid:
/// `round(s * (n-1) / 255)`, halves rounded up.
pub open spec fn nearest_of(n: int, s: int) -> int {
    (2 * s * (n - 1) + 255) / 510
}

/// The grid point nearest to the 8-bit sample `(r, g, b)`.
pub fn interp_nearest(lut3d: &LUT3DContext, r: u8, g: u8, b: u8) -> (c: Rgb)
    requires
        lut3d.wf(),
    ensures
        ({
            let n = lut3d.lutsize as int;
            c == lut3d.at(nearest_of(n, r as int), nearest_of(n, g as int), nearest_of(n, b as int))
        }),
{
    let n = lut3d.lutsize;
    let i = nearest_index(n, r);
    let j = nearest_index(n, g);
    let k = nearest_index(n, b);
    lut3d.get(i, j, k)
}

fn nearest_index(n: usize, s: u8) -> (r: usize)
    requires
        2 <= n <= MAX_LEVEL,
    ensures
        r == nearest_of(n as int, s as int),
        r < n,
{
    assert(2 * s * (n - 1) <= 510 * 64) by (nonlinear_arith)
        requires 0 <= s <= 255, 2 <= n <= 65;
    let t: usize = 2 * (s as usize) * (n - 1) + 255;
    assert(t / 510 < n) by (nonlinear_arith)
        requires t == 2 * s * (n - 1) + 255, 0 <= s <= 255, n >= 2;
    t / 510
}

// ---------------------------------------------------------------------------
// Applying a table to a pixel buffer
// ---------------------------------------------------------------------------

/// An interpolated component (times 255, in fixed point) as an 8-bit sample:
/// its integer part, clamped to `0..=255`.
pub open spec fn clip_spec(v: int) -> int {
    if v < 0 {
        0
    } else if v / (ONE as int) > 255 {
        255
    } else {
        v / (ONE as int)
    }
}

/// Converts an interpolated component (times 255, in fixed point) to an 8-bit
/// sample, clamping what falls outside `0..=255`.
pub fn clip_uint(a: i64) -> (r: u8)
    ensures
        r == clip_spec(a as int),
{
    if a < 0 {
        0
    } else if a / ONE > 255 {
        255
    } else {
        (a / ONE) as u8
    }
}

/// The output sample at position `i` of a buffer of `colors` components per
/// pixel: the first three components of each pixel go through the table,
/// any further component is zero.
pub open spec fn tetra_sample(lut: &LUT3DContext, px: Seq<u8>, colors: int, i: int) -> int {
    let ch = i % colors;
    let p = i - ch;
    if ch < 3 {
        clip_spec(tetra_channel(lut, px[p], px[p + 1], px[p + 2], ch))
    } else {
        0
    }
}

/// Position `m + t` lies at offset `t` of the pixel that starts at `m`.
pub proof fn lemma_in_pixel(m: int, t: int, c: int)
    requires
        c > 0,
        m % c == 0,
        m >= 0,
        0 <= t < c,
    ensures
        (m + t) % c == t,
{
    vstd::arithmetic::div_mod::lemma_fundamental_div_mod(m, c);
    assert(m == (m / c) * c) by (nonlinear_arith)
        requires m == c * (m / c) + m % c, m % c == 0;
    lemma_fundamental_div_mod_converse(m + t, c, m / c, t);
}

/// Transforms row `y` of `indata` into `row`; the rows have `row.len()`
/// samples each.
pub fn transform_row(lut3d: &LUT3DContext, indata: &Vec<u8>, colors: usize, y: usize, row: &mut [u8])
    requires
        lut3d.wf(),
        3 <= colors,
        old(row)@.len() as int % (colors as int) == 0,
        (y + 1) * old(row)@.len() <= indata@.len(),
    ensures
        final(row)@.len() == old(row)@.len(),
        forall|j: int|
            0 <= j < final(row)@.len() ==> final(row)@[j] == tetra_sample(
                lut3d,
                indata@,
                colors as int,
                y * old(row)@.len() + j,
            ),
{
    let len = row.len();
    let in_len = indata.len();
    assert(len == old(row)@.len());
    assert(y * len + len <= indata@.len()) by (nonlinear_arith)
        requires (y + 1) * len <= indata@.len();
    assert(0 <= y * len) by (nonlinear_arith)
        requires 0 <= y, 0 <= len;
    let base = y * len;
    proof {
        let q = len as int / colors as int;
        vstd::arithmetic::div_mod::lemma_fundamental_div_mod(len as int, colors as int);
        assert(base == (y * q) * colors) by (nonlinear_arith)
            requires base == y * len, len == q * colors;
        assert(y * q >= 0) by (nonlinear_arith)
            requires y >= 0, q >= 0;
        lemma_fundamental_div_mod_converse(base as int, colors as int, y * q, 0);
    }
    let mut x: usize = 0;
    while x < len
        invariant
            row@.len() == len,
            len == old(row)@.len(),
            x <= len,
            x % colors == 0,
            len % colors == 0,
            base == y * len,
            base as int % (colors as int) == 0,
            base + len <= indata@.len(),
            in_len == indata@.len(),
            3 <= colors,
            lut3d.wf(),
            forall|j: int|
                0 <= j < x ==> row@[j] == tetra_sample(lut3d, indata@, colors as int, base + j),
        decreases len - x,
    {
        proof {
            vstd::arithmetic::div_mod::lemma_mod_add_multiples_vanish(x as int, colors as int);
            assert(x + colors <= len) by {
                vstd::arithmetic::div_mod::lemma_fundamental_div_mod(x as int, colors as int);
                vstd::arithmetic::div_mod::lemma_fundamental_div_mod(len as int, colors as int);
                let qx = x as int / colors as int;
                let ql = len as int / colors as int;
                assert(qx < ql) by (nonlinear_arith)
                    requires x == colors * qx + x % colors, len == colors * ql + len % colors,
                        x % colors == 0, len % colors == 0, x < len, colors > 0;
                assert(x == qx * colors && len == ql * colors) by (nonlinear_arith)
                    requires x == colors * qx + x % colors, len == colors * ql + len % colors,
                        x % colors == 0, len % colors == 0;
                assert(qx * colors + colors <= ql * colors) by (nonlinear_arith)
                    requires qx < ql, colors > 0;
            }
            vstd::arithmetic::div_mod::lemma_mod_adds(base as int, x as int, colors as int);
        }
        let ghost start = row@;
        let p = base + x;
        assert((base + x) as int % (colors as int) == 0);
        let c = interp_tetrahedral(lut3d, indata[p], indata[p + 1], indata[p + 2]);
        row[x] = clip_uint(c.r);
        row[x + 1] = clip_uint(c.g);
        row[x + 2] = clip_uint(c.b);
        let ghost before = row@;
        let mut k: usize = 3;
        while k < colors
            invariant
                3 <= k <= colors,
                x + colors <= len,
                row@.len() == len,
                forall|j: int| x + 3 <= j < x + k ==> row@[j] == 0,
                before.len() == len,
                forall|j: int| 0 <= j < x + 3 ==> row@[j] == before[j],
            decreases colors - k,
        {
            row[x + k] = 0;
            k = k + 1;
        }
        proof {
            assert forall|j: int| 0 <= j < x implies row@[j] == tetra_sample(
                lut3d,
                indata@,
                colors as int,
                base + j,
            ) by {
                assert(row@[j] == before[j]);
                assert(before[j] == start[j]);
            }
            assert forall|j: int| x <= j < x + colors implies row@[j] == tetra_sample(
                lut3d,
                indata@,
                colors as int,
                base + j,
            ) by {
                lemma_in_pixel((base + x) as int, j - x, colors as int);
                let ch = j - x;
                assert((base + j) % (colors as int) == ch);
                assert(base + j - ch == base + x);
                if ch == 0 {
                    assert(row@[j] == before[x as int]);
                } else if ch == 1 {
                    assert(row@[j] == before[x + 1]);
                } else if ch == 2 {
                    assert(row@[j] == before[x + 2]);
                } else {
                    assert(row@[j] == 0);
                }
            }
        }
        x = x + colors;
    }
}

/// Relies on rayon's `par_chunks_mut`, `enumerate` and `for_each`: `out` is
/// cut into consecutive chunks of `linesize` samples, numbered from 0, and
/// `transform_row` runs once on each chunk with its number.
#[verifier::external_body]
fn transform_rows(
    lut3d: &LUT3DContext,
    indata: &Vec<u8>,
    colors: usize,
    linesize: usize,
    out: &mut Vec<u8>,
)
    requires
        lut3d.wf(),
        3 <= colors,
        linesize > 0,
        linesize % colors == 0,
        old(out)@.len() == indata@.len(),
        indata@.len() % (linesize as nat) == 0,
    ensures
        final(out)@.len() == old(out)@.len(),
        forall|i: int|
            0 <= i < final(out)@.len() ==> final(out)@[i] == tetra_sample(
                lut3d,
                indata@,
                colors as int,
                i,
            ),
{
    out.par_chunks_mut(linesize).enumerate().for_each(
        |(y, row)| transform_row(lut3d, indata, colors, y, row),
    );
}

/// Applies the table to every pixel of an 8-bit buffer of `width` pixels per
/// row and `colors` components per pixel, by tetrahedral interpolation; rows
/// are processed in parallel.
pub fn interp_8_tetrahedral(lut3d: LUT3DContext, indata: Vec<u8>, width: i32, colors: i32) -> (out:
    Vec<u8>)
    requires
        lut3d.wf(),
        width >= 1,
        colors >= 3,
        indata@.len() % ((width * colors) as nat) == 0,
    ensures
        out@.len() == indata@.len(),
        forall|i: int|
            0 <= i < out@.len() ==> out@[i] == tetra_sample(&lut3d, indata@, colors as int, i),
{
    let n = indata.len();
    if n == 0 {
        return Vec::new();
    }
    proof {
        let l = width * colors;
        assert(l > 0) by (nonlinear_arith)
            requires l == width * colors, width >= 1, colors >= 3;
        vstd::arithmetic::div_mod::lemma_fundamental_div_mod(n as int, l);
        let q = n as int / l;
        assert(q >= 1) by (nonlinear_arith)
            requires n == l * q + n as int % l, n as int % l == 0, n > 0, l > 0;
        assert(l <= n) by (nonlinear_arith)
            requires n == l * q + n as int % l, n as int % l == 0, q >= 1, l > 0;
    }
    let colors = colors as usize;
    let linesize: usize = (width as usize) * colors;
    proof {
        vstd::arithmetic::div_mod::lemma_mod_multiples_basic(width as int, colors as int);
        assert(linesize > 0) by (nonlinear_arith)
            requires linesize == width * colors, width >= 1, colors >= 3;
    }
    let mut out: Vec<u8> = Vec::new();
    while out.len() < indata.len()
        invariant
            out@.len() <= indata@.len(),
        decreases indata@.len() - out@.len(),
    {
        out.push(0);
    }
    transform_rows(&lut3d, &indata, colors, linesize, &mut out);
    out
}

// ---------------------------------------------------------------------------
// Identity tables
// ---------------------------------------------------------------------------

/// `v` stands for grid coordinate `x` of a size-`n` grid, rescaled to
/// `0..=ONE`, to within less than one fixed-point unit.
pub open spec fn near_grid(v: int, x: int, n: int) -> bool {
    -(n - 1) < (n - 1) * v - x * (ONE as int) < n - 1
}

/// Every grid point holds its own coordinates rescaled to `0..=ONE`, to
/// within less than one fixed-point unit: the table that changes no color.
pub open spec fn is_identity(lut: &LUT3DContext) -> bool {
    let n = lut.lutsize as int;
    &&& lut.wf()
    &&& forall|i: int, j: int, k: int, ch: int|
        0 <= i < n && 0 <= j < n && 0 <= k < n && 0 <= ch < 3 ==> near_grid(
            #[trigger] channel(lut.at(i, j, k), ch),
            pick(ch, (i, j, k)),
            n,
        )
}

/// A blend of four values, each near its grid coordinate, is near the same
/// blend of the coordinates.
proof fn lemma_blend_bound(
    n: int,
    w0: int,
    w1: int,
    w2: int,
    w3: int,
    c0: int,
    c1: int,
    c2: int,
    c3: int,
    x0: int,
    x1: int,
    x2: int,
    x3: int,
)
    requires
        n >= 2,
        w0 >= 0 && w1 >= 0 && w2 >= 0 && w3 >= 0,
        w0 + w1 + w2 + w3 == 255,
        near_grid(c0, x0, n),
        near_grid(c1, x1, n),
        near_grid(c2, x2, n),
        near_grid(c3, x3, n),
    ensures
        -255 * (n - 1) < (n - 1) * (w0 * c0 + w1 * c1 + w2 * c2 + w3 * c3) - (ONE as int) * (w0
            * x0 + w1 * x1 + w2 * x2 + w3 * x3) < 255 * (n - 1),
{
    let one = ONE as int;
    let e0 = (n - 1) * c0 - x0 * one;
    let e1 = (n - 1) * c1 - x1 * one;
    let e2 = (n - 1) * c2 - x2 * one;
    let e3 = (n - 1) * c3 - x3 * one;
    assert(-(w0 * (n - 2)) <= w0 * e0 <= w0 * (n - 2)) by (nonlinear_arith)
        requires w0 >= 0, -(n - 1) < e0 < n - 1;
    assert(-(w1 * (n - 2)) <= w1 * e1 <= w1 * (n - 2)) by (nonlinear_arith)
        requires w1 >= 0, -(n - 1) < e1 < n - 1;
    assert(-(w2 * (n - 2)) <= w2 * e2 <= w2 * (n - 2)) by (nonlinear_arith)
        requires w2 >= 0, -(n - 1) < e2 < n - 1;
    assert(-(w3 * (n - 2)) <= w3 * e3 <= w3 * (n - 2)) by (nonlinear_arith)
        requires w3 >= 0, -(n - 1) < e3 < n - 1;
    assert(w0 * (n - 2) + w1 * (n - 2) + w2 * (n - 2) + w3 * (n - 2) == 255 * (n - 2))
        by (nonlinear_arith)
        requires w0 + w1 + w2 + w3 == 255;
    let sc = w0 * c0 + w1 * c1 + w2 * c2 + w3 * c3;
    let sx = w0 * x0 + w1 * x1 + w2 * x2 + w3 * x3;
    assert((n - 1) * sc == (n - 1) * (w0 * c0) + (n - 1) * (w1 * c1) + (n - 1) * (w2 * c2) + (n
        - 1) * (w3 * c3)) by (nonlinear_arith)
        requires sc == w0 * c0 + w1 * c1 + w2 * c2 + w3 * c3;
    assert(one * sx == one * (w0 * x0) + one * (w1 * x1) + one * (w2 * x2) + one * (w3 * x3))
        by (nonlinear_arith)
        requires sx == w0 * x0 + w1 * x1 + w2 * x2 + w3 * x3;
    assert((n - 1) * (w0 * c0) - one * (w0 * x0) == w0 * e0) by (nonlinear_arith)
        requires e0 == (n - 1) * c0 - x0 * one;
    assert((n - 1) * (w1 * c1) - one * (w1 * x1) == w1 * e1) by (nonlinear_arith)
        requires e1 == (n - 1) * c1 - x1 * one;
    assert((n - 1) * (w2 * c2) - one * (w2 * x2) == w2 * e2) by (nonlinear_arith)
        requires e2 == (n - 1) * c2 - x2 * one;
    assert((n - 1) * (w3 * c3) - one * (w3 * x3) == w3 * e3) by (nonlinear_arith)
        requires e3 == (n - 1) * c3 - x3 * one;
}

/// A value within 255 fixed-point units of `s * ONE` is clipped to `s` or
/// `s - 1`.
proof fn lemma_clip_near(v: int, s: int)
    requires
        0 <= s <= 255,
        s * (ONE as int) - 255 < v < s * (ONE as int) + 255,
    ensures
        s - 1 <= clip_spec(v) <= s,
{
    let one = ONE as int;
    vstd::arithmetic::div_mod::lemma_fundamental_div_mod(v, one);
    let q = v / one;
    let rem = v % one;
    assert(q <= s) by (nonlinear_arith)
        requires v == one * q + rem, 0 <= rem < one, v < s * one + 255, one == 1000000;
    assert(q >= s - 1) by (nonlinear_arith)
        requires v == one * q + rem, 0 <= rem < one, v > s * one - 255, one == 1000000;
    if v < 0 {
        assert(s == 0) by (nonlinear_arith)
            requires v < 0, v > s * one - 255, s >= 0, one == 1000000;
    }
}

/// Through an identity table each component of a sample comes out as it went
/// in, or one less.
pub proof fn lemma_identity_channel(lut: &LUT3DContext, r: u8, g: u8, b: u8, ch: int)
    requires
        is_identity(lut),
        0 <= ch < 3,
    ensures
        ({
            let s = pick(ch, (r as int, g as int, b as int));
            let out = clip_spec(tetra_channel(lut, r, g, b, ch));
            s - 1 <= out <= s
        }),
{
    let n = lut.lutsize as int;
    let one = ONE as int;
    lemma_grid_pos(n, r as int);
    lemma_grid_pos(n, g as int);
    lemma_grid_pos(n, b as int);
    let lo = (lo_of(n, r as int), lo_of(n, g as int), lo_of(n, b as int));
    let hi = (hi_of(n, r as int), hi_of(n, g as int), hi_of(n, b as int));
    let d = (frac_of(n, r as int), frac_of(n, g as int), frac_of(n, b as int));
    let o = axis_order(d.0, d.1, d.2);
    lemma_axis_order(d.0, d.1, d.2);
    let (da, db, dc) = (pick(o.0, d), pick(o.1, d), pick(o.2, d));
    let m0 = (false, false, false);
    let m1 = (o.0 == 0, o.0 == 1, o.0 == 2);
    let m2 = (o.0 == 0 || o.1 == 0, o.0 == 1 || o.1 == 1, o.0 == 2 || o.1 == 2);
    let m3 = (true, true, true);
    let p0 = (lo.0, lo.1, lo.2);
    let p1 = (
        if m1.0 { hi.0 } else { lo.0 },
        if m1.1 { hi.1 } else { lo.1 },
        if m1.2 { hi.2 } else { lo.2 },
    );
    let p2 = (
        if m2.0 { hi.0 } else { lo.0 },
        if m2.1 { hi.1 } else { lo.1 },
        if m2.2 { hi.2 } else { lo.2 },
    );
    let p3 = (hi.0, hi.1, hi.2);
    let c0 = channel(lut.at(p0.0, p0.1, p0.2), ch);
    let c1 = channel(lut.at(p1.0, p1.1, p1.2), ch);
    let c2 = channel(lut.at(p2.0, p2.1, p2.2), ch);
    let c3 = channel(lut.at(p3.0, p3.1, p3.2), ch);
    assert(c0 == channel(corner(lut, lo, hi, m0), ch));
    assert(c1 == channel(corner(lut, lo, hi, m1), ch));
    assert(c2 == channel(corner(lut, lo, hi, m2), ch));
    assert(c3 == channel(corner(lut, lo, hi, m3), ch));
    let (x0, x1, x2, x3) = (pick(ch, p0), pick(ch, p1), pick(ch, p2), pick(ch, p3));
    assert(near_grid(c0, x0, n));
    assert(near_grid(c1, x1, n));
    assert(near_grid(c2, x2, n));
    assert(near_grid(c3, x3, n));
    let (w0, w1, w2, w3) = (255 - da, da - db, db - dc, dc);
    lemma_blend_bound(n, w0, w1, w2, w3, c0, c1, c2, c3, x0, x1, x2, x3);
    let sum = w0 * c0 + w1 * c1 + w2 * c2 + w3 * c3;
    assert(sum == tetra_channel(lut, r, g, b, ch));
    // The blend of the corner coordinates is the sample's own grid position.
    let s = pick(ch, (r as int, g as int, b as int));
    let l = pick(ch, lo);
    let h = pick(ch, hi);
    let dch = pick(ch, d);
    assert(l * 255 + dch == s * (n - 1));
    let u1: int = if o.0 == ch { 1 } else { 0 };
    let u2: int = if o.0 == ch || o.1 == ch { 1 } else { 0 };
    assert(w1 * u1 + w2 * u2 + w3 == dch);
    assert(x0 == l && x1 == l + u1 * (h - l) && x2 == l + u2 * (h - l) && x3 == h);
    let xs = w0 * x0 + w1 * x1 + w2 * x2 + w3 * x3;
    if h == l {
        assert(dch == 0);
        assert(xs == 255 * l) by (nonlinear_arith)
            requires x0 == l, x1 == l, x2 == l, x3 == l, w0 + w1 + w2 + w3 == 255,
                xs == w0 * x0 + w1 * x1 + w2 * x2 + w3 * x3;
    } else {
        assert(h == l + 1);
        assert(xs == 255 * l + dch) by (nonlinear_arith)
            requires x0 == l, x1 == l + u1, x2 == l + u2, x3 == l + 1,
                w0 + w1 + w2 + w3 == 255, w1 * u1 + w2 * u2 + w3 == dch,
                xs == w0 * x0 + w1 * x1 + w2 * x2 + w3 * x3;
    }
    assert(xs == s * (n - 1));
    assert(s * one - 255 < sum < s * one + 255) by (nonlinear_arith)
        requires
            -255 * (n - 1) < (n - 1) * sum - one * xs < 255 * (n - 1),
            xs == s * (n - 1),
            n >= 2,
    ;
    lemma_clip_near(sum, s);
}

/// Applying an identity table to a pixel buffer reproduces each color
/// component to within one step of rounding (it may come out one lower), and
/// leaves any further component zero.
pub proof fn lemma_identity_round_trip(lut: &LUT3DContext, px: Seq<u8>, colors: int)
    requires
        is_identity(lut),
        colors >= 3,
        px.len() as int % colors == 0,
    ensures
        forall|i: int|
            0 <= i < px.len() ==> ({
                let out = #[trigger] tetra_sample(lut, px, colors, i);
                if i % colors < 3 {
                    px[i] - 1 <= out <= px[i]
                } else {
                    out == 0
                }
            }),
{
    assert forall|i: int| 0 <= i < px.len() implies ({
        let out = #[trigger] tetra_sample(lut, px, colors, i);
        if i % colors < 3 {
            px[i] - 1 <= out <= px[i]
        } else {
            out == 0
        }
    }) by {
        let ch = i % colors;
        let p = i - ch;
        if ch < 3 {
            vstd::arithmetic::div_mod::lemma_fundamental_div_mod(i, colors);
            vstd::arithmetic::div_mod::lemma_fundamental_div_mod(px.len() as int, colors);
            let q = i / colors;
            let ql = px.len() as int / colors;
            assert(p == colors * q);
            assert(q < ql) by (nonlinear_arith)
                requires p == colors * q, px.len() == colors * ql, p <= i, i < px.len(), colors > 0;
            assert(colors * (q + 1) <= colors * ql) by (nonlinear_arith)
                requires q + 1 <= ql, colors > 0;
            assert(p + colors == colors * (q + 1)) by (nonlinear_arith)
                requires p == colors * q;
            lemma_identity_channel(lut, px[p], px[p + 1], px[p + 2], ch);
        }
    }
}

} // verus!

//! Decomposition of the image plane into rectangular buckets.
//!
//! A `BucketGrid` splits the half-open pixel rectangle
//! `[0, width) x [0, height)` into buckets of edge length `bucket_size`,
//! emitted in row-major order; buckets in the last column and row are
//! clipped to the image bounds. `Bucket::pixels` enumerates the pixels of
//! one bucket, also in row-major order.

use vstd::prelude::*;
use vstd::arithmetic::div_mod::{
    lemma_fundamental_div_mod, lemma_fundamental_div_mod_converse, lemma_div_is_ordered,
    lemma_small_mod, lemma_mod_bound,
};
verus! {

/// A rectangular region of the image: the half-open pixel rectangle
/// `[top_left.0, bottom_right.0) x [top_left.1, bottom_right.1)`,
/// with `(x, y)` coordinate pairs.
#[derive(Copy, Clone)]
pub struct Bucket {
    pub top_left: (u32, u32),
    pub bottom_right: (u32, u32),
}

impl Bucket {
    /// A bucket is a nonempty rectangle.
    pub open spec fn wf(self) -> bool {
        self.top_left.0 < self.bottom_right.0 && self.top_left.1 < self.bottom_right.1
    }

    /// The pixel `(x, y)` lies in this bucket.
    pub open spec fn contains(self, x: int, y: int) -> bool {
        self.top_left.0 <= x < self.bottom_right.0 && self.top_left.1 <= y < self.bottom_right.1
    }

    pub open spec fn width(self) -> int {
        self.bottom_right.0 - self.top_left.0
    }

    pub open spec fn height(self) -> int {
        self.bottom_right.1 - self.top_left.1
    }

    /// The pixels of this bucket as `(y, x)` pairs, in row-major order.
    pub open spec fn pixel_seq(self) -> Seq<(u32, u32)> {
        Seq::new(
            (self.height() * self.width()) as nat,
            |k: int|
                (
                    (self.top_left.1 + k / self.width()) as u32,
                    (self.top_left.0 + k % self.width()) as u32,
                ),
        )
    }

    /// Starts the row-major enumeration of this bucket's pixels.
    pub fn pixels(self) -> (r: BucketPixels)
        requires
            self.wf(),
        ensures
            r.wf(),
            r.bucket == self,
            r.index() == 0,
    {
        BucketPixels { bucket: self, cursor: self.top_left }
    }
}

/// Row-major enumeration of the pixels of one bucket.
pub struct BucketPixels {
    pub bucket: Bucket,
    pub cursor: (u32, u32),
}

impl BucketPixels {
    pub open spec fn wf(self) -> bool {
        &&& self.bucket.wf()
        &&& self.bucket.top_left.0 <= self.cursor.0 < self.bucket.bottom_right.0
        &&& self.bucket.top_left.1 <= self.cursor.1 <= self.bucket.bottom_right.1
        &&& self.cursor.1 == self.bucket.bottom_right.1 ==> self.cursor.0
            == self.bucket.top_left.0
    }

    /// How many pixels have been emitted so far.
    pub open spec fn index(self) -> int {
        (self.cursor.1 - self.bucket.top_left.1) * self.bucket.width() + (self.cursor.0
            - self.bucket.top_left.0)
    }

    /// Emits the next `(y, x)` pair of the bucket, row by row.
    pub fn next(&mut self) -> (r: Option<(u32, u32)>)
        requires
            old(self).wf(),
        ensures
            final(self).wf(),
            final(self).bucket == old(self).bucket,
            old(self).index() == old(self).bucket.pixel_seq().len() ==> r is None
                && final(self).index() == old(self).index(),
            old(self).index() < old(self).bucket.pixel_seq().len() ==> r == Some(
                old(self).bucket.pixel_seq()[old(self).index()],
            ) && final(self).index() == old(self).index() + 1,
    {
        let b = self.bucket;
        proof {
            lemma_pixels_index(*self);
        }
        if self.cursor.1 == b.bottom_right.1 {
            return None;
        }
        let y = self.cursor.1;
        let x = self.cursor.0;
        proof {
            let w = b.width();
            let k = self.index();
            lemma_fundamental_div_mod_converse(k, w, y - b.top_left.1, x - b.top_left.0);
            assert(b.pixel_seq()[k] == (y, x));
        }
        if x + 1 == b.bottom_right.0 {
            self.cursor.0 = b.top_left.0;
            self.cursor.1 = y + 1;
            proof {
                assert(final(self).index() == (y + 1 - b.top_left.1) * b.width());
                assert((y + 1 - b.top_left.1) * b.width() == (y - b.top_left.1) * b.width()
                    + b.width()) by (nonlinear_arith);
            }
        } else {
            self.cursor.0 = x + 1;
        }
        Some((y, x))
    }

    /// Counts the pixels left in the enumeration, consuming it.
    pub fn count(self) -> (r: usize)
        requires
            self.wf(),
            self.bucket.pixel_seq().len() <= usize::MAX,
        ensures
            r == self.bucket.pixel_seq().len() - self.index(),
    {
        let mut it = self;
        let mut n: usize = 0;
        proof {
            lemma_pixels_index(it);
        }
        loop
            invariant
                it.wf(),
                it.bucket.pixel_seq().len() <= usize::MAX,
                n == it.index() - self.index(),
                it.bucket == self.bucket,
                0 <= self.index() <= it.index() <= it.bucket.pixel_seq().len(),
            decreases it.bucket.pixel_seq().len() - it.index(),
        {
            proof {
                lemma_pixels_index(it);
            }
            match it.next() {
                Some(_) => {
                    n = n + 1;
                },
                None => {
                    return n;
                },
            }
        }
    }
}

/// The index of a well-formed pixel cursor is within the pixel sequence.
proof fn lemma_pixels_index(it: BucketPixels)
    requires
        it.wf(),
    ensures
        0 <= it.index() <= it.bucket.pixel_seq().len(),
        it.index() == it.bucket.pixel_seq().len() <==> it.cursor.1 == it.bucket.bottom_right.1,
{
    let b = it.bucket;
    let w = b.width();
    let h = b.height();
    let ry = it.cursor.1 - b.top_left.1;
    let rx = it.cursor.0 - b.top_left.0;
    assert(0 <= rx < w);
    assert(0 <= ry <= h);
    assert(ry * w >= 0) by (nonlinear_arith)
        requires ry >= 0 && w >= 0;
    if ry < h {
        assert(ry * w + rx < h * w) by (nonlinear_arith)
            requires 0 <= rx < w && 0 <= ry < h;
    } else {
        assert(ry == h && rx == 0);
    }
}

/// The grid of buckets laid over an image of `width x height` pixels.
pub struct BucketGrid {
    pub width: u32,
    pub height: u32,
    pub bucket_size: u32,
}

/// `a / b` rounded up.
pub open spec fn div_up(a: int, b: int) -> int {
    (a + b - 1) / b
}

impl BucketGrid {
    pub open spec fn wf(self) -> bool {
        self.width > 0 && self.height > 0 && self.bucket_size > 0
    }

    /// Number of bucket columns.
    pub open spec fn cols(self) -> int {
        div_up(self.width as int, self.bucket_size as int)
    }

    /// Number of bucket rows.
    pub open spec fn rows(self) -> int {
        div_up(self.height as int, self.bucket_size as int)
    }

    pub open spec fn bucket_count(self) -> int {
        self.rows() * self.cols()
    }

    /// The `k`-th bucket in row-major order: row `k / cols`, column
    /// `k % cols`, clipped to the image bounds.
    pub open spec fn bucket_at(self, k: int) -> Bucket {
        let b = self.bucket_size as int;
        let x0 = (k % self.cols()) * b;
        let y0 = (k / self.cols()) * b;
        Bucket {
            top_left: (x0 as u32, y0 as u32),
            bottom_right: (
                vstd::math::min(x0 + b, self.width as int) as u32,
                vstd::math::min(y0 + b, self.height as int) as u32,
            ),
        }
    }

    /// All buckets of the grid in emission order.
    pub open spec fn buckets_seq(self) -> Seq<Bucket> {
        Seq::new(self.bucket_count() as nat, |k: int| self.bucket_at(k))
    }

    pub fn new(grid_width: u32, grid_height: u32, bucket_size: u32) -> (r: BucketGrid)
        requires
            grid_width > 0,
            grid_height > 0,
            bucket_size > 0,
        ensures
            r.width == grid_width,
            r.height == grid_height,
            r.bucket_size == bucket_size,
            r.wf(),
    {
        BucketGrid { width: grid_width, height: grid_height, bucket_size }
    }

    /// Starts the row-major enumeration of the grid's buckets.
    pub fn buckets(&self) -> (r: BucketIter<'_>)
        requires
            self.wf(),
        ensures
            r.wf(),
            r.grid == self,
            r.index() == 0,
    {
        let it = BucketIter { grid: self, cursor: (0, 0) };
        proof {
            lemma_div_up_parts(self.width as int, self.bucket_size as int);
            lemma_div_up_parts(self.height as int, self.bucket_size as int);
            assert(it.index() == 0);
        }
        it
    }
}

/// Row-major enumeration of a grid's buckets.
pub struct BucketIter<'grid> {
    pub grid: &'grid BucketGrid,
    pub cursor: (u32, u32),
}

impl<'grid> BucketIter<'grid> {
    pub open spec fn wf(self) -> bool {
        &&& self.grid.wf()
        &&& self.cursor.0 as int % self.grid.bucket_size as int == 0
        &&& self.cursor.0 < self.grid.width
        &&& if self.cursor.1 == self.grid.height {
            self.cursor.0 == 0
        } else {
            self.cursor.1 as int % self.grid.bucket_size as int == 0 && self.cursor.1
                < self.grid.height
        }
    }

    /// How many buckets have been emitted so far.
    pub open spec fn index(self) -> int {
        if self.cursor.1 == self.grid.height {
            self.grid.bucket_count()
        } else {
            (self.cursor.1 as int / self.grid.bucket_size as int) * self.grid.cols()
                + self.cursor.0 as int / self.grid.bucket_size as int
        }
    }

    /// Emits the next bucket of the grid, row by row, clipped to the
    /// image bounds.
    pub fn next(&mut self) -> (r: Option<Bucket>)
        requires
            old(self).wf(),
        ensures
            final(self).wf(),
            final(self).grid == old(self).grid,
            old(self).index() == old(self).grid.bucket_count() ==> r is None && final(self).index()
                == old(self).index(),
            old(self).index() < old(self).grid.bucket_count() ==> r == Some(
                old(self).grid.bucket_at(old(self).index()),
            ) && final(self).index() == old(self).index() + 1,
    {
        let g = self.grid;
        let ghost b = g.bucket_size as int;
        let ghost w = g.width as int;
        let ghost h = g.height as int;
        proof {
            lemma_iter_index(*self);
        }
        if self.cursor.1 == g.height {
            return None;
        }
        let tl = self.cursor;
        let ghost k = self.index();
        proof {
            lemma_div_up_parts(w, b);
            lemma_div_up_parts(h, b);
            lemma_aligned_col(tl.0 as int, w, b);
            lemma_aligned_col(tl.1 as int, h, b);
            lemma_fundamental_div_mod_converse(k, g.cols(), tl.1 as int / b, tl.0 as int / b);
            assert(g.bucket_at(k).top_left == tl) by {
                lemma_fundamental_div_mod(tl.0 as int, b);
                lemma_fundamental_div_mod(tl.1 as int, b);
            }
        }
        let brx: u32 = if g.bucket_size < g.width - tl.0 {
            tl.0 + g.bucket_size
        } else {
            g.width
        };
        let bry: u32 = if g.bucket_size < g.height - tl.1 {
            tl.1 + g.bucket_size
        } else {
            g.height
        };
        assert(g.bucket_at(k).bottom_right == (brx, bry));
        if g.bucket_size < g.width - self.cursor.0 {
            self.cursor.0 = self.cursor.0 + g.bucket_size;
            proof {
                lemma_mod_multiple_add(tl.0 as int, b);
                lemma_div_multiple_add(tl.0 as int, b);
            }
        } else {
            self.cursor.0 = 0;
            proof {
                lemma_last_col(tl.0 as int, w, b);
                lemma_small_mod(0, b as nat);
            }
            if g.bucket_size < g.height - self.cursor.1 {
                self.cursor.1 = self.cursor.1 + g.bucket_size;
                proof {
                    lemma_mod_multiple_add(tl.1 as int, b);
                    lemma_div_multiple_add(tl.1 as int, b);
                    assert((tl.1 as int / b + 1) * g.cols() == (tl.1 as int / b) * g.cols()
                        + g.cols()) by (nonlinear_arith);
                }
            } else {
                self.cursor.1 = g.height;
                proof {
                    lemma_last_col(tl.1 as int, h, b);
                    assert((tl.1 as int / b + 1) * g.cols() == (tl.1 as int / b) * g.cols()
                        + g.cols()) by (nonlinear_arith);
                }
            }
        }
        Some(Bucket { top_left: tl, bottom_right: (brx, bry) })
    }

    /// Counts the buckets left in the enumeration, consuming it.
    pub fn count(self) -> (r: usize)
        requires
            self.wf(),
            self.grid.bucket_count() <= usize::MAX,
        ensures
            r == self.grid.bucket_count() - self.index(),
    {
        let mut it = self;
        let mut n: usize = 0;
        proof {
            lemma_iter_index(it);
        }
        loop
            invariant
                it.wf(),
                it.grid.bucket_count() <= usize::MAX,
                it.grid == self.grid,
                n == it.index() - self.index(),
                0 <= self.index() <= it.index() <= it.grid.bucket_count(),
            decreases it.grid.bucket_count() - it.index(),
        {
            proof {
                lemma_iter_index(it);
            }
            match it.next() {
                Some(_) => {
                    n = n + 1;
                },
                None => {
                    return n;
                },
            }
        }
    }

    /// Collects the buckets left in the enumeration into a vector.
    pub fn collect(self) -> (r: Vec<Bucket>)
        requires
            self.wf(),
            self.index() == 0,
            self.grid.bucket_count() <= usize::MAX,
        ensures
            r@ == self.grid.buckets_seq(),
    {
        let mut it = self;
        let mut out: Vec<Bucket> = Vec::new();
        proof {
            lemma_iter_index(it);
        }
        loop
            invariant
                it.wf(),
                it.grid.bucket_count() <= usize::MAX,
                it.grid == self.grid,
                out@.len() == it.index(),
                out@ == self.grid.buckets_seq().take(it.index()),
                0 <= it.index() <= it.grid.bucket_count(),
            decreases it.grid.bucket_count() - it.index(),
        {
            proof {
                lemma_iter_index(it);
            }
            let ghost i = it.index();
            match it.next() {
                Some(bk) => {
                    out.push(bk);
                    proof {
                        assert(out@ =~= self.grid.buckets_seq().take(i + 1));
                    }
                },
                None => {
                    proof {
                        assert(out@ =~= self.grid.buckets_seq());
                    }
                    return out;
                },
            }
        }
    }
}

/// The index of a well-formed bucket cursor is within the grid's sequence.
proof fn lemma_iter_index(it: BucketIter)
    requires
        it.wf(),
    ensures
        0 <= it.index() <= it.grid.bucket_count(),
        it.index() == it.grid.bucket_count() <==> it.cursor.1 == it.grid.height,
{
    let g = *it.grid;
    let b = g.bucket_size as int;
    lemma_div_up_parts(g.width as int, b);
    lemma_div_up_parts(g.height as int, b);
    if it.cursor.1 != g.height {
        let ci = it.cursor.1 as int / b;
        let cj = it.cursor.0 as int / b;
        lemma_aligned_col(it.cursor.0 as int, g.width as int, b);
        lemma_aligned_col(it.cursor.1 as int, g.height as int, b);
        assert(0 <= cj < g.cols());
        assert(0 <= ci < g.rows());
        assert(ci * g.cols() + cj < g.rows() * g.cols()) by (nonlinear_arith)
            requires 0 <= cj < g.cols() && 0 <= ci < g.rows();
        assert(ci * g.cols() + cj >= 0) by (nonlinear_arith)
            requires ci >= 0 && cj >= 0 && g.cols() > 0;
    }
}

/// For positive `a` and `b`: `div_up(a, b) == (a - 1) / b + 1`, and the
/// rounded-up quotient covers `a` without a full spare multiple.
proof fn lemma_div_up_parts(a: int, b: int)
    requires
        a > 0,
        b > 0,
    ensures
        div_up(a, b) == (a - 1) / b + 1,
        div_up(a, b) >= 1,
        (div_up(a, b) - 1) * b <= a - 1,
        a <= div_up(a, b) * b,
{
    let q = (a - 1) / b;
    let r = (a - 1) % b;
    lemma_fundamental_div_mod(a - 1, b);
    assert(a + b - 1 == (q + 1) * b + r) by (nonlinear_arith)
        requires a - 1 == b * q + r;
    lemma_fundamental_div_mod_converse(a + b - 1, b, q + 1, r);
    assert((q + 1 - 1) * b == q * b) by (nonlinear_arith);
    assert(q * b <= a - 1) by (nonlinear_arith)
        requires a - 1 == b * q + r && r >= 0;
    assert(a <= (q + 1) * b) by (nonlinear_arith)
        requires a - 1 == b * q + r && r < b;
}

/// A `b`-aligned coordinate below `m` indexes a column below `div_up(m, b)`.
proof fn lemma_aligned_col(x: int, m: int, b: int)
    requires
        0 <= x < m,
        b > 0,
        x % b == 0,
    ensures
        0 <= x / b < div_up(m, b),
        x / b * b == x,
{
    lemma_fundamental_div_mod(x, b);
    lemma_div_up_parts(m, b);
    lemma_div_is_ordered(x, m - 1, b);
    assert(x / b * b == b * (x / b)) by (nonlinear_arith);
}

/// Advancing a `b`-aligned coordinate by `b` keeps it aligned.
proof fn lemma_mod_multiple_add(x: int, b: int)
    requires
        b > 0,
        0 <= x,
        x % b == 0,
    ensures
        (x + b) % b == 0,
{
    lemma_fundamental_div_mod(x, b);
    assert(x + b == (x / b + 1) * b + 0) by (nonlinear_arith)
        requires x == b * (x / b);
    lemma_fundamental_div_mod_converse(x + b, b, x / b + 1, 0);
}

/// Advancing a `b`-aligned coordinate by `b` advances its column by one.
proof fn lemma_div_multiple_add(x: int, b: int)
    requires
        b > 0,
        0 <= x,
        x % b == 0,
    ensures
        (x + b) / b == x / b + 1,
{
    lemma_fundamental_div_mod(x, b);
    assert(x + b == (x / b + 1) * b + 0) by (nonlinear_arith)
        requires x == b * (x / b);
    lemma_fundamental_div_mod_converse(x + b, b, x / b + 1, 0);
}

/// The grid emits exactly `ceil(width / bucket) * ceil(height / bucket)`
/// buckets.
pub proof fn lemma_bucket_count(g: BucketGrid)
    requires
        g.wf(),
    ensures
        g.buckets_seq().len() == div_up(g.width as int, g.bucket_size as int) * div_up(
            g.height as int,
            g.bucket_size as int,
        ),
{
    lemma_div_up_parts(g.width as int, g.bucket_size as int);
    lemma_div_up_parts(g.height as int, g.bucket_size as int);
    assert(g.rows() * g.cols() == g.cols() * g.rows()) by (nonlinear_arith);
    assert(g.rows() * g.cols() >= 0) by (nonlinear_arith)
        requires g.rows() >= 1 && g.cols() >= 1;
}

/// Every bucket of the grid is a nonempty rectangle that lies inside the
/// image bounds.
pub proof fn lemma_bucket_in_image(g: BucketGrid, k: int)
    requires
        g.wf(),
        0 <= k < g.buckets_seq().len(),
    ensures
        g.buckets_seq()[k].wf(),
        g.buckets_seq()[k].bottom_right.0 <= g.width,
        g.buckets_seq()[k].bottom_right.1 <= g.height,
        g.buckets_seq()[k].top_left.0 == (k % g.cols()) * g.bucket_size,
        g.buckets_seq()[k].top_left.1 == (k / g.cols()) * g.bucket_size,
        g.buckets_seq()[k].bottom_right.0 == vstd::math::min(
            (k % g.cols()) * g.bucket_size + g.bucket_size,
            g.width as int,
        ),
        g.buckets_seq()[k].bottom_right.1 == vstd::math::min(
            (k / g.cols()) * g.bucket_size + g.bucket_size,
            g.height as int,
        ),
{
    let b = g.bucket_size as int;
    let w = g.width as int;
    let h = g.height as int;
    lemma_div_up_parts(w, b);
    lemma_div_up_parts(h, b);
    lemma_bucket_count(g);
    lemma_mod_bound(k, g.cols());
    let bj = k % g.cols();
    let bi = k / g.cols();
    lemma_fundamental_div_mod(k, g.cols());
    assert(0 <= bi < g.rows()) by (nonlinear_arith)
        requires
            0 <= k < g.rows() * g.cols() && k == g.cols() * bi + bj && 0 <= bj < g.cols(),
    ;
    assert(bj * b <= (g.cols() - 1) * b) by (nonlinear_arith)
        requires bj <= g.cols() - 1 && b > 0;
    assert(bi * b <= (g.rows() - 1) * b) by (nonlinear_arith)
        requires bi <= g.rows() - 1 && b > 0;
    assert(bj * b >= 0) by (nonlinear_arith)
        requires bj >= 0 && b > 0;
    assert(bi * b >= 0) by (nonlinear_arith)
        requires bi >= 0 && b > 0;
}

/// The buckets of a grid partition the image plane: every pixel of
/// `[0, width) x [0, height)` lies in the bucket of its own column and
/// row, and in no other.
pub proof fn lemma_grid_partition(g: BucketGrid, x: int, y: int)
    requires
        g.wf(),
        0 <= x < g.width,
        0 <= y < g.height,
    ensures
        ({
            let k = (y / g.bucket_size as int) * g.cols() + x / g.bucket_size as int;
            &&& 0 <= k < g.buckets_seq().len()
            &&& g.buckets_seq()[k].contains(x, y)
            &&& forall|j: int|
                0 <= j < g.buckets_seq().len() && g.buckets_seq()[j].contains(x, y) ==> j == k
        }),
{
    let b = g.bucket_size as int;
    let w = g.width as int;
    let h = g.height as int;
    lemma_div_up_parts(w, b);
    lemma_div_up_parts(h, b);
    lemma_bucket_count(g);
    let cj = x / b;
    let ci = y / b;
    lemma_fundamental_div_mod(x, b);
    lemma_mod_bound(x, b);
    lemma_fundamental_div_mod(y, b);
    lemma_mod_bound(y, b);
    lemma_div_is_ordered(x, w - 1, b);
    lemma_div_is_ordered(y, h - 1, b);
    assert(0 <= ci) by (nonlinear_arith)
        requires y == b * ci + y % b && 0 <= y % b < b && y >= 0 && b > 0;
    assert(0 <= cj) by (nonlinear_arith)
        requires x == b * cj + x % b && 0 <= x % b < b && x >= 0 && b > 0;
    let k = ci * g.cols() + cj;
    assert(ci * g.cols() + cj == g.cols() * ci + cj) by (nonlinear_arith);
    lemma_fundamental_div_mod_converse(k, g.cols(), ci, cj);
    assert(0 <= k < g.rows() * g.cols()) by (nonlinear_arith)
        requires
            k == g.cols() * ci + cj && 0 <= cj < g.cols() && 0 <= ci < g.rows(),
    ;
    assert(cj * b <= x < cj * b + b) by (nonlinear_arith)
        requires x == b * cj + x % b && 0 <= x % b < b;
    assert(ci * b <= y < ci * b + b) by (nonlinear_arith)
        requires y == b * ci + y % b && 0 <= y % b < b;
    lemma_bucket_in_image(g, k);
    assert(g.buckets_seq()[k].contains(x, y));
    assert forall|j: int|
        0 <= j < g.buckets_seq().len() && g.buckets_seq()[j].contains(x, y) implies j == k by {
        let qj = j % g.cols();
        let qi = j / g.cols();
        lemma_mod_bound(j, g.cols());
        lemma_fundamental_div_mod(j, g.cols());
        lemma_bucket_in_image(g, j);
        assert(qj * b <= x < qj * b + b);
        assert(qi * b <= y < qi * b + b);
        assert(x == qj * b + (x - qj * b)) by (nonlinear_arith);
        lemma_fundamental_div_mod_converse(x, b, qj, x - qj * b);
        lemma_fundamental_div_mod_converse(y, b, qi, y - qi * b);
        assert(j == g.cols() * qi + qj);
        assert(j == k) by (nonlinear_arith)
            requires
                j == g.cols() * qi + qj && k == g.cols() * ci + cj && qi == ci && qj == cj,
        ;
    }
}

/// Two different buckets of one grid share no pixel: the no-overlap half
/// of the partition, and the ownership argument that keeps concurrent
/// bucket workers off each other's pixels.
pub proof fn lemma_buckets_disjoint(g: BucketGrid, i: int, j: int, x: int, y: int)
    requires
        g.wf(),
        0 <= i < g.buckets_seq().len(),
        0 <= j < g.buckets_seq().len(),
        i != j,
        g.buckets_seq()[i].contains(x, y),
    ensures
        !g.buckets_seq()[j].contains(x, y),
{
    lemma_bucket_in_image(g, i);
    lemma_grid_partition(g, x, y);
}

/// Every entry of a bucket's pixel enumeration lies in the bucket.
pub proof fn lemma_pixel_enumeration(b: Bucket, k: int)
    requires
        b.wf(),
        0 <= k < b.pixel_seq().len(),
    ensures
        b.contains(b.pixel_seq()[k].1 as int, b.pixel_seq()[k].0 as int),
{
    let w = b.width();
    let h = b.height();
    lemma_mod_bound(k, w);
    lemma_fundamental_div_mod(k, w);
    assert(h * w - 1 == w * (h - 1) + (w - 1)) by (nonlinear_arith);
    lemma_fundamental_div_mod_converse(h * w - 1, w, h - 1, w - 1);
    lemma_div_is_ordered(k, h * w - 1, w);
}

/// Every pixel a bucket contains stands at exactly one place of its
/// enumeration: its row-major index.
pub proof fn lemma_pixel_index(b: Bucket, x: int, y: int)
    requires
        b.wf(),
        b.contains(x, y),
    ensures
        ({
            let k = (y - b.top_left.1) * b.width() + (x - b.top_left.0);
            &&& 0 <= k < b.pixel_seq().len()
            &&& b.pixel_seq()[k] == ((y as u32, x as u32))
            &&& forall|j: int|
                0 <= j < b.pixel_seq().len() && #[trigger] b.pixel_seq()[j] == ((
                    y as u32,
                    x as u32,
                )) ==> j == k
        }),
{
    let w = b.width();
    let h = b.height();
    let ry = y - b.top_left.1;
    let rx = x - b.top_left.0;
    let k = ry * w + rx;
    assert(ry * w + rx >= 0) by (nonlinear_arith)
        requires ry >= 0 && rx >= 0 && w > 0;
    assert(ry * w + rx < h * w) by (nonlinear_arith)
        requires 0 <= rx < w && 0 <= ry < h;
    assert(k == w * ry + rx) by (nonlinear_arith)
        requires k == ry * w + rx;
    lemma_fundamental_div_mod_converse(k, w, ry, rx);
    assert(h * w - 1 == w * (h - 1) + (w - 1)) by (nonlinear_arith);
    lemma_fundamental_div_mod_converse(h * w - 1, w, h - 1, w - 1);
    assert forall|j: int|
        0 <= j < b.pixel_seq().len() && #[trigger] b.pixel_seq()[j] == ((y as u32, x as u32))
        implies j == k by {
        lemma_mod_bound(j, w);
        lemma_fundamental_div_mod(j, w);
        lemma_div_is_ordered(j, h * w - 1, w);
        assert(b.top_left.1 + j / w == y);
        assert(b.top_left.0 + j % w == x);
        assert(j == w * ry + rx) by (nonlinear_arith)
            requires j == w * (j / w) + j % w && j / w == ry && j % w == rx;
    }
}

/// An aligned coordinate whose next step leaves `[0, m)` sits in the last
/// column.
proof fn lemma_last_col(x: int, m: int, b: int)
    requires
        0 <= x < m,
        b > 0,
        x % b == 0,
        x + b >= m,
    ensures
        x / b == div_up(m, b) - 1,
{
    lemma_div_up_parts(m, b);
    lemma_aligned_col(x, m, b);
    let c = div_up(m, b);
    if x / b < c - 1 {
        assert(x == x / b * b);
        assert(x / b * b + b <= (c - 1) * b) by (nonlinear_arith)
            requires x / b + 1 <= c - 1 && b > 0;
        assert((c - 1) * b <= m - 1);
        assert(false);
    }
}

} // verus!

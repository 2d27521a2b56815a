//! The 8-bit image buffer and its PPM serialization.
//!
//! The buffer collects tone-mapped RGB bytes, three per pixel in row-major
//! order, and serializes them in the PPM formats: `P3` (ASCII, one decimal
//! triple per pixel) or `P6` (binary). Writing the result to a file is the
//! caller's business.

use vstd::prelude::*;

verus! {

/// The decimal digits of `n` as ASCII bytes, most significant first.
pub open spec fn dec_bytes(n: int) -> Seq<u8>
    decreases n,
{
    if n < 0 {
        Seq::empty()
    } else if n < 10 {
        seq![(48 + n) as u8]
    } else {
        dec_bytes(n / 10).push((48 + n % 10) as u8)
    }
}

/// Appends the decimal digits of `n` to `out`.
pub fn push_dec(out: &mut Vec<u8>, n: u32)
    ensures
        final(out)@ == old(out)@ + dec_bytes(n as int),
    decreases n,
{
    if n < 10 {
        out.push((48 + n) as u8);
        assert(out@ =~= old(out)@ + dec_bytes(n as int));
    } else {
        push_dec(out, n / 10);
        out.push((48 + n % 10) as u8);
        assert(out@ =~= old(out)@ + dec_bytes(n as int));
    }
}

/// The PPM header `{magic}\n{width} {height}\n255\n`, where `magic` is
/// `P3` or `P6`.
pub open spec fn ppm_header(magic: u8, width: u32, height: u32) -> Seq<u8> {
    seq![80u8, magic, 10u8] + dec_bytes(width as int) + seq![32u8] + dec_bytes(height as int)
        + seq![10u8] + dec_bytes(255) + seq![10u8]
}

/// The ASCII body: one `r g b` line per complete byte triple of `pix`,
/// starting at offset `i`.
pub open spec fn ppm_p3_lines(pix: Seq<u8>, i: int) -> Seq<u8>
    decreases pix.len() - i,
{
    if i < 0 || i + 3 > pix.len() {
        Seq::empty()
    } else {
        dec_bytes(pix[i] as int) + seq![32u8] + dec_bytes(pix[i + 1] as int) + seq![32u8]
            + dec_bytes(pix[i + 2] as int) + seq![10u8] + ppm_p3_lines(pix, i + 3)
    }
}

/// The whole ASCII PPM file for an image of `width x height` pixels.
pub open spec fn ppm_p3(width: u32, height: u32, pix: Seq<u8>) -> Seq<u8> {
    ppm_header(51, width, height) + ppm_p3_lines(pix, 0)
}

/// The whole binary PPM file for an image of `width x height` pixels.
pub open spec fn ppm_p6(width: u32, height: u32, pix: Seq<u8>) -> Seq<u8> {
    ppm_header(54, width, height) + pix
}

/// Tone-mapped RGB bytes, three per pixel in row-major order.
pub struct ImageBuffer {
    pub inner: Vec<u8>,
    pub width: u32,
    pub height: u32,
}

impl View for ImageBuffer {
    type V = Seq<u8>;

    open spec fn view(&self) -> Seq<u8> {
        self.inner@
    }
}

impl ImageBuffer {
    pub fn new(width: u32, height: u32, buf: Vec<u8>) -> (r: ImageBuffer)
        ensures
            r@ == buf@,
            r.width == width,
            r.height == height,
    {
        ImageBuffer { inner: buf, width, height }
    }

    pub fn len(&self) -> (r: usize)
        ensures
            r == self@.len(),
    {
        self.inner.len()
    }

    /// Appends one pixel's three channel bytes.
    pub fn push_rgb(&mut self, r: u8, g: u8, b: u8)
        ensures
            final(self)@ == old(self)@ + seq![r, g, b],
            final(self).width == old(self).width,
            final(self).height == old(self).height,
    {
        self.inner.push(r);
        self.inner.push(g);
        self.inner.push(b);
        assert(self@ =~= old(self)@ + seq![r, g, b]);
    }

    pub fn clear(&mut self)
        ensures
            final(self)@ == Seq::<u8>::empty(),
            final(self).width == old(self).width,
            final(self).height == old(self).height,
    {
        self.inner.clear()
    }

    /// The raw bytes, for callers that copy or write them out.
    pub fn as_bytes(&self) -> (r: &[u8])
        ensures
            r@ == self@,
    {
        self.inner.as_slice()
    }

    /// Serializes the buffer as an ASCII `P3` PPM file: the header, then
    /// one space-separated decimal triple per pixel. An incomplete
    /// trailing triple is dropped.
    pub fn to_ppm_p3(&self) -> (r: Vec<u8>)
        ensures
            r@ == ppm_p3(self.width, self.height, self@),
    {
        let mut out: Vec<u8> = Vec::new();
        out.push(80);
        out.push(51);
        out.push(10);
        push_dec(&mut out, self.width);
        out.push(32);
        push_dec(&mut out, self.height);
        out.push(10);
        push_dec(&mut out, 255);
        out.push(10);
        assert(out@ =~= ppm_header(51, self.width, self.height));
        let len = self.inner.len();
        let mut i: usize = 0;
        while len - i >= 3
            invariant
                0 <= i <= len,
                len == self@.len(),
                len == self.inner@.len(),
                out@ + ppm_p3_lines(self@, i as int) =~= ppm_p3(self.width, self.height, self@),
            decreases len - i,
        {
            let ghost pre = out@;
            push_dec(&mut out, self.inner[i] as u32);
            out.push(32);
            push_dec(&mut out, self.inner[i + 1] as u32);
            out.push(32);
            push_dec(&mut out, self.inner[i + 2] as u32);
            out.push(10);
            proof {
                assert(dec_bytes(self.inner@[i as int] as u32 as int) == dec_bytes(
                    self@[i as int] as int,
                ));
                assert(out@ =~= pre + (dec_bytes(self@[i as int] as int) + seq![32u8] + dec_bytes(
                    self@[i as int + 1] as int,
                ) + seq![32u8] + dec_bytes(self@[i as int + 2] as int) + seq![10u8]));
                assert(out@ + ppm_p3_lines(self@, i as int + 3) =~= pre + ppm_p3_lines(
                    self@,
                    i as int,
                ));
            }
            i = i + 3;
        }
        proof {
            assert(ppm_p3_lines(self@, i as int) =~= Seq::<u8>::empty());
            assert(out@ =~= ppm_p3(self.width, self.height, self@));
        }
        out
    }

    /// Serializes the buffer as a binary `P6` PPM file: the header, then
    /// the raw interleaved RGB bytes.
    pub fn to_ppm_p6(&self) -> (r: Vec<u8>)
        ensures
            r@ == ppm_p6(self.width, self.height, self@),
    {
        let mut out: Vec<u8> = Vec::new();
        out.push(80);
        out.push(54);
        out.push(10);
        push_dec(&mut out, self.width);
        out.push(32);
        push_dec(&mut out, self.height);
        out.push(10);
        push_dec(&mut out, 255);
        out.push(10);
        assert(out@ =~= ppm_header(54, self.width, self.height));
        let mut i: usize = 0;
        let len = self.inner.len();
        while i < len
            invariant
                0 <= i <= len,
                len == self@.len(),
                len == self.inner@.len(),
                out@ =~= ppm_header(54, self.width, self.height) + self@.take(i as int),
            decreases len - i,
        {
            out.push(self.inner[i]);
            proof {
                assert(out@ =~= ppm_header(54, self.width, self.height) + self@.take(
                    i as int + 1,
                ));
            }
            i = i + 1;
        }
        proof {
            assert(self@.take(len as int) =~= self@);
            assert(out@ =~= ppm_p6(self.width, self.height, self@));
        }
        out
    }
}

} // verus!

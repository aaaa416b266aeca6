//! A canvas of `width` by `height` pixels, stored row by row.

use vstd::prelude::*;
use crate::ppm::{
    Rgb8, PPM_LINE_WIDTH, decimal_bytes, header_chunks, pixel_step_chunks, data_chunks,
    ppm_chunks, ppm_output, pieces_view, write_pieces, lemma_header, lemma_data_state,
    lemma_data_chunks_extend, lemma_u32_below_pow10, lemma_ppm_lines_within_width,
    lemma_ppm_ends_with_newline, lemma_ppm_respaced,
};
use crate::png_image::{encode_png_rgb8, png_rgb8_encoding, png_rgb8_header};
use crate::writer::{
    MaxWidthWriter, NEWLINE, SPACE, feed, lemma_feed_append, lines_within, respaced, concat_all,
};

verus! {

/// `x < w` and `y < h` put `y * w + x` below `w * h`.
pub proof fn lemma_index_in_range(x: int, y: int, w: int, h: int)
    requires
        0 <= x < w,
        0 <= y < h,
    ensures
        0 <= y * w + x < w * h,
        y * w + x + 1 <= (y + 1) * w,
{
    assert(0 <= y * w + x < w * h) by (nonlinear_arith)
        requires
            0 <= x < w,
            0 <= y < h,
    ;
    assert((y + 1) * w == y * w + w) by (nonlinear_arith);
}

/// Why a canvas has no PNG encoding.
#[derive(Debug, Clone, Copy, PartialEq, Eq, Structural)]
pub enum PngError {
    /// The canvas has no columns.
    ZeroWidth,
    /// The canvas has columns but no rows.
    ZeroHeight,
}

/// The channels of the pixels `q`, one after the other.
pub open spec fn rgb_bytes(q: Seq<Rgb8>) -> Seq<u8>
    decreases q.len(),
{
    if q.len() == 0 {
        Seq::empty()
    } else {
        rgb_bytes(q.drop_last()) + seq![q.last().0, q.last().1, q.last().2]
    }
}

pub proof fn lemma_rgb_bytes_len(q: Seq<Rgb8>)
    ensures
        rgb_bytes(q).len() == 3 * q.len(),
    decreases q.len(),
{
    if q.len() > 0 {
        lemma_rgb_bytes_len(q.drop_last());
    }
}

/// The PNG image data of the pixels `q`: pixel `i` takes bytes `3 * i`,
/// `3 * i + 1` and `3 * i + 2`, which hold its red, green and blue channels
/// in that order.
pub proof fn lemma_rgb_bytes_channels(q: Seq<Rgb8>)
    ensures
        rgb_bytes(q).len() == 3 * q.len(),
        forall|i: int|
            0 <= i < q.len() ==> {
                &&& rgb_bytes(q)[3 * i] == (#[trigger] q[i]).0
                &&& rgb_bytes(q)[3 * i + 1] == q[i].1
                &&& rgb_bytes(q)[3 * i + 2] == q[i].2
            },
    decreases q.len(),
{
    lemma_rgb_bytes_len(q);
    if q.len() > 0 {
        let p = q.drop_last();
        lemma_rgb_bytes_channels(p);
        let last = seq![q.last().0, q.last().1, q.last().2];
        assert(rgb_bytes(q) == rgb_bytes(p) + last);
        assert forall|i: int| 0 <= i < q.len() implies {
            &&& rgb_bytes(q)[3 * i] == (#[trigger] q[i]).0
            &&& rgb_bytes(q)[3 * i + 1] == q[i].1
            &&& rgb_bytes(q)[3 * i + 2] == q[i].2
        } by {
            if i < p.len() {
                assert(q[i] == p[i]);
            }
        }
    }
}

/// A lone space.
fn space_piece() -> (v: Vec<u8>)
    ensures
        v@ == seq![SPACE],
{
    let v: Vec<u8> = vec![SPACE];
    assert(v@ =~= seq![SPACE]);
    v
}

/// A lone newline.
fn newline_piece() -> (v: Vec<u8>)
    ensures
        v@ == seq![NEWLINE],
{
    let v: Vec<u8> = vec![NEWLINE];
    assert(v@ =~= seq![NEWLINE]);
    v
}

/// A grid of `width` by `height` pixels, stored row by row.
pub struct Canvas<P> {
    width: u32,
    height: u32,
    data: Vec<P>,
}

impl<P> Canvas<P> {
    /// The number of columns.
    pub closed spec fn spec_width(&self) -> u32 {
        self.width
    }

    /// The number of rows.
    pub closed spec fn spec_height(&self) -> u32 {
        self.height
    }

    /// The pixels, row by row.
    pub closed spec fn pixels(&self) -> Seq<P> {
        self.data@
    }

    /// One pixel for each column of each row, and no more pixels than a
    /// `u32` counts.
    pub open spec fn wf(&self) -> bool {
        &&& self.pixels().len() == self.spec_width() * self.spec_height()
        &&& self.spec_width() * self.spec_height() <= u32::MAX
    }

    /// The pixel in column `x` of row `y`.
    pub open spec fn pixel(&self, x: int, y: int) -> P {
        self.pixels()[y * self.spec_width() + x]
    }
}

/// A canvas of `w` by `h` pixels, all of them the default pixel.
pub fn canvas<P: Copy + Default>(w: u32, h: u32) -> (c: Canvas<P>)
    requires
        w * h <= u32::MAX,
    ensures
        c.wf(),
        c.spec_width() == w,
        c.spec_height() == h,
        c.pixels().len() == w * h,
        forall|i: int| 0 <= i < c.pixels().len() ==> call_ensures(P::default, (), #[trigger] c.pixels()[i]),
        forall|i: int, j: int|
            0 <= i < c.pixels().len() && 0 <= j < c.pixels().len() ==> #[trigger] c.pixels()[i]
                == #[trigger] c.pixels()[j],
{
    Canvas::new(w, h)
}

/// Reading a pixel gives back what was last written there: after a write of
/// `c` at column `x` of row `y` (the change `set_pixel` makes), the pixel
/// there is `c` and every other pixel is as it was.
pub proof fn lemma_get_after_set<P>(before: Canvas<P>, after: Canvas<P>, x: int, y: int, c: P)
    requires
        before.wf(),
        0 <= x < before.spec_width(),
        0 <= y < before.spec_height(),
        after.spec_width() == before.spec_width(),
        after.spec_height() == before.spec_height(),
        after.pixels() == before.pixels().update(y * before.spec_width() + x, c),
    ensures
        after.pixel(x, y) == c,
        forall|x2: int, y2: int|
            0 <= x2 < before.spec_width() && 0 <= y2 < before.spec_height() && (x2 != x || y2 != y)
                ==> #[trigger] after.pixel(x2, y2) == before.pixel(x2, y2),
{
    let w = before.spec_width() as int;
    let h = before.spec_height() as int;
    lemma_index_in_range(x, y, w, h);
    assert forall|x2: int, y2: int|
        0 <= x2 < w && 0 <= y2 < h && (x2 != x || y2 != y) implies #[trigger] after.pixel(x2, y2)
        == before.pixel(x2, y2) by {
        lemma_index_in_range(x2, y2, w, h);
        lemma_index_injective(x, y, x2, y2, w);
    }
}

/// Distinct cells of a row-by-row grid have distinct indices.
pub proof fn lemma_index_injective(x: int, y: int, x2: int, y2: int, w: int)
    requires
        0 <= x < w,
        0 <= x2 < w,
        0 <= y,
        0 <= y2,
        x != x2 || y != y2,
    ensures
        y * w + x != y2 * w + x2,
{
    if y == y2 {
    } else if y < y2 {
        assert(y * w + x < y2 * w + x2) by (nonlinear_arith)
            requires
                0 <= x < w,
                0 <= x2,
                y < y2,
        ;
    } else {
        assert(y2 * w + x2 < y * w + x) by (nonlinear_arith)
            requires
                0 <= x2 < w,
                0 <= x,
                y2 < y,
        ;
    }
}

impl<P: Copy> Canvas<P> {
    /// A canvas of `width` by `height` pixels, all of them the default pixel.
    pub fn new(width: u32, height: u32) -> (c: Self) where P: Default
        requires
            width * height <= u32::MAX,
        ensures
            c.wf(),
            c.spec_width() == width,
            c.spec_height() == height,
            c.pixels().len() == width * height,
            forall|i: int| 0 <= i < c.pixels().len() ==> call_ensures(P::default, (), #[trigger] c.pixels()[i]),
            forall|i: int, j: int|
                0 <= i < c.pixels().len() && 0 <= j < c.pixels().len() ==> #[trigger] c.pixels()[i]
                    == #[trigger] c.pixels()[j],
    {
        let fill = P::default();
        let n: u32 = width * height;
        let mut data: Vec<P> = Vec::new();
        let mut k: u32 = 0;
        while k < n
            invariant
                k <= n,
                data@.len() == k,
                forall|i: int| 0 <= i < k ==> data@[i] == fill,
            decreases n - k,
        {
            data.push(fill);
            k = k + 1;
        }
        Canvas { width, height, data }
    }

    /// The number of columns.
    pub fn width(&self) -> (r: u32)
        ensures
            r == self.spec_width(),
    {
        self.width
    }

    /// The number of rows.
    pub fn height(&self) -> (r: u32)
        ensures
            r == self.spec_height(),
    {
        self.height
    }

    /// Sets every pixel to `c`.
    pub fn clear(&mut self, c: P)
        requires
            old(self).wf(),
        ensures
            final(self).wf(),
            final(self).spec_width() == old(self).spec_width(),
            final(self).spec_height() == old(self).spec_height(),
            final(self).pixels().len() == old(self).pixels().len(),
            forall|i: int| 0 <= i < final(self).pixels().len() ==> #[trigger] final(self).pixels()[i] == c,
    {
        let n: u32 = self.width * self.height;
        self.data.clear();
        let mut k: u32 = 0;
        while k < n
            invariant
                k <= n,
                n == self.width * self.height,
                self.width == old(self).width,
                self.height == old(self).height,
                old(self).wf(),
                self.data@.len() == k,
                forall|i: int| 0 <= i < k ==> self.data@[i] == c,
            decreases n - k,
        {
            self.data.push(c);
            k = k + 1;
        }
    }

    /// Index of the pixel in column `x` of row `y`.
    fn index(&self, x: u32, y: u32) -> (i: usize)
        requires
            self.wf(),
            x < self.spec_width(),
            y < self.spec_height(),
        ensures
            i == y * self.spec_width() + x,
            i < self.pixels().len(),
    {
        proof {
            lemma_index_in_range(x as int, y as int, self.width as int, self.height as int);
        }
        let i: u32 = y * self.width + x;
        i as usize
    }

    /// Sets the pixel in column `x` of row `y` to `c`.
    pub fn set_pixel(&mut self, x: u32, y: u32, c: P)
        requires
            old(self).wf(),
            x < old(self).spec_width(),
            y < old(self).spec_height(),
        ensures
            final(self).wf(),
            final(self).spec_width() == old(self).spec_width(),
            final(self).spec_height() == old(self).spec_height(),
            final(self).pixels() == old(self).pixels().update(y * old(self).spec_width() + x, c),
    {
        let i = self.index(x, y);
        self.data.set(i, c);
    }

    /// Adds `c` to the pixel in column `x` of row `y`, with the addition
    /// `plus` of pixels.
    pub fn add_to_pixel<F: Fn(P, P) -> P>(&mut self, x: u32, y: u32, c: P, plus: F)
        requires
            old(self).wf(),
            x < old(self).spec_width(),
            y < old(self).spec_height(),
            call_requires(plus, (old(self).pixel(x as int, y as int), c)),
        ensures
            final(self).wf(),
            final(self).spec_width() == old(self).spec_width(),
            final(self).spec_height() == old(self).spec_height(),
            call_ensures(plus, (old(self).pixel(x as int, y as int), c), final(self).pixel(x as int, y as int)),
            final(self).pixels() == old(self).pixels().update(
                y * old(self).spec_width() + x,
                final(self).pixel(x as int, y as int),
            ),
    {
        let i = self.index(x, y);
        let sum = plus(self.data[i], c);
        self.data.set(i, sum);
    }

    /// The mean of the pixels: `black`, plus each pixel in turn with `plus`,
    /// divided by the number of pixels with `divide`.
    pub fn average_brightness<F: Fn(P, P) -> P, G: Fn(P, u32) -> P>(
        &self,
        black: P,
        plus: F,
        divide: G,
    ) -> (avg: P)
        requires
            self.wf(),
            forall|s: P, p: P| call_requires(plus, (s, p)),
            forall|s: P, n: u32| call_requires(divide, (s, n)),
        ensures
            exists|sums: Seq<P>|
                {
                    &&& sums.len() == self.pixels().len() + 1
                    &&& sums[0] == black
                    &&& forall|i: int|
                        0 <= i < self.pixels().len() ==> call_ensures(
                            plus,
                            (sums[i], self.pixels()[i]),
                            #[trigger] sums[i + 1],
                        )
                    &&& call_ensures(
                        divide,
                        (sums[self.pixels().len() as int], (self.spec_width() * self.spec_height()) as u32),
                        avg,
                    )
                },
    {
        let mut sum = black;
        let ghost mut sums: Seq<P> = seq![black];
        let mut k: usize = 0;
        while k < self.data.len()
            invariant
                self.wf(),
                k <= self.data.len(),
                sums.len() == k + 1,
                sums[0] == black,
                sums[k as int] == sum,
                forall|s: P, p: P| call_requires(plus, (s, p)),
                forall|i: int| 0 <= i < k ==> call_ensures(plus, (sums[i], self.pixels()[i]), #[trigger] sums[i + 1]),
            decreases self.data.len() - k,
        {
            let next = plus(sum, self.data[k]);
            proof {
                let s2 = sums.push(next);
                assert forall|i: int| 0 <= i < k + 1 implies call_ensures(
                    plus,
                    (s2[i], self.pixels()[i]),
                    #[trigger] s2[i + 1],
                ) by {
                    if i < k {
                        assert(s2[i] == sums[i] && s2[i + 1] == sums[i + 1]);
                    }
                }
                sums = s2;
            }
            sum = next;
            k = k + 1;
        }
        let n: u32 = self.width * self.height;
        divide(sum, n)
    }

    /// The pixel in column `x` of row `y`.
    pub fn get_pixel(&self, x: u32, y: u32) -> (c: P)
        requires
            self.wf(),
            x < self.spec_width(),
            y < self.spec_height(),
        ensures
            c == self.pixel(x as int, y as int),
    {
        let i = self.index(x, y);
        self.data[i]
    }

    /// The rows of the canvas, top to bottom.
    pub fn rows(&self) -> (r: Vec<Vec<P>>)
        requires
            self.wf(),
            self.spec_width() > 0,
        ensures
            r@.len() == self.spec_height(),
            forall|y: int|
                0 <= y < self.spec_height() ==> #[trigger] r@[y]@ == self.pixels().subrange(
                    y * self.spec_width(),
                    (y + 1) * self.spec_width(),
                ),
            forall|y: int| 0 <= y < self.spec_height() ==> (#[trigger] r@[y]@).len() == self.spec_width(),
            forall|x: int, y: int|
                0 <= x < self.spec_width() && 0 <= y < self.spec_height() ==> #[trigger] r@[y]@[x]
                    == self.pixel(x, y),
    {
        let w: u32 = self.width;
        let h: u32 = self.height;
        let mut r: Vec<Vec<P>> = Vec::new();
        let mut y: u32 = 0;
        while y < h
            invariant
                self.wf(),
                w == self.width,
                h == self.height,
                w > 0,
                y <= h,
                r@.len() == y,
                forall|t: int|
                    0 <= t < y ==> #[trigger] r@[t]@ == self.pixels().subrange(t * w, (t + 1) * w),
            decreases h - y,
        {
            proof {
                lemma_index_in_range((w - 1) as int, y as int, w as int, h as int);
            }
            let mut row: Vec<P> = Vec::new();
            let mut x: u32 = 0;
            while x < w
                invariant
                    self.wf(),
                    w == self.width,
                    h == self.height,
                    y < h,
                    x <= w,
                    row@ == self.pixels().subrange(y * w, y * w + x),
                decreases w - x,
            {
                let i = self.index(x, y);
                row.push(self.data[i]);
                proof {
                    assert(row@ =~= self.pixels().subrange(y * w, y * w + x + 1));
                }
                x = x + 1;
            }
            proof {
                assert((y + 1) * w == y * w + w) by (nonlinear_arith);
            }
            r.push(row);
            y = y + 1;
        }
        proof {
            assert forall|y: int| 0 <= y < h implies (#[trigger] r@[y]@).len() == w by {
                assert((y + 1) * w == y * w + w) by (nonlinear_arith);
                lemma_index_in_range((w - 1) as int, y, w as int, h as int);
            }
            assert forall|x: int, y: int| 0 <= x < w && 0 <= y < h implies #[trigger] r@[y]@[x]
                == self.pixel(x, y) by {
                assert((y + 1) * w == y * w + w) by (nonlinear_arith);
                lemma_index_in_range(x, y, w as int, h as int);
                lemma_index_in_range((w - 1) as int, y, w as int, h as int);
                let row = r@[y]@;
                assert(row == self.pixels().subrange(y * w, (y + 1) * w));
                assert(y * w + w <= self.pixels().len());
                assert(row[x] == self.pixels()[y * w + x]);
            }
        }
        r
    }

    /// All the pixels, row by row.
    pub fn flat(&self) -> (r: Vec<P>)
        ensures
            r@ == self.pixels(),
    {
        let mut r: Vec<P> = Vec::new();
        let mut k: usize = 0;
        while k < self.data.len()
            invariant
                k <= self.data.len(),
                r@ == self.data@.take(k as int),
            decreases self.data.len() - k,
        {
            r.push(self.data[k]);
            proof {
                assert(r@ =~= self.data@.take(k + 1));
            }
            k = k + 1;
        }
        proof {
            assert(self.data@.take(k as int) =~= self.data@);
        }
        r
    }

    /// Writes the PPM file of the canvas to `out`, each pixel turned into
    /// bytes by `to_u8`: the header, then one line of numbers per row,
    /// with lines longer than seventy columns broken at spaces.
    pub fn write_ppm<F: Fn(P) -> Rgb8>(&self, out: &mut Vec<u8>, to_u8: F)
        requires
            self.wf(),
            self.spec_width() > 0,
            forall|i: int| 0 <= i < self.pixels().len() ==> call_requires(to_u8, (#[trigger] self.pixels()[i],)),
        ensures
            exists|q: Seq<Rgb8>|
                {
                    &&& q.len() == self.pixels().len()
                    &&& forall|i: int| 0 <= i < q.len() ==> call_ensures(to_u8, (#[trigger] self.pixels()[i],), q[i])
                    &&& final(out)@ == old(out)@ + #[trigger] ppm_output(
                        self.spec_width() as nat,
                        self.spec_height() as nat,
                        q,
                    )
                    &&& lines_within(
                        ppm_output(self.spec_width() as nat, self.spec_height() as nat, q),
                        PPM_LINE_WIDTH as nat,
                    )
                    &&& ppm_output(self.spec_width() as nat, self.spec_height() as nat, q).last()
                        == NEWLINE
                    &&& respaced(
                        concat_all(ppm_chunks(self.spec_width() as nat, self.spec_height() as nat, q)),
                        ppm_output(self.spec_width() as nat, self.spec_height() as nat, q),
                    )
                },
    {
        let mut writer = MaxWidthWriter::new(PPM_LINE_WIDTH);
        let ghost out0 = out@;
        self.write_ppm_header(&mut writer, out);
        let q = self.write_ppm_data(&mut writer, out, to_u8, Ghost(out0));
        writer.flush(out);
        proof {
            assert(out@ =~= out0 + ppm_output(self.width as nat, self.height as nat, q@));
            lemma_ppm_lines_within_width(self.width, self.height, q@);
            lemma_ppm_ends_with_newline(self.width, self.height, q@);
            lemma_ppm_respaced(self.width, self.height, q@);
        }
    }

    /// Writes the PNG file of the canvas to `out`, each pixel turned into
    /// bytes by `to_u8`. A canvas without columns or without rows has none:
    /// then nothing is written.
    pub fn write_png<F: Fn(P) -> Rgb8>(&self, out: &mut Vec<u8>, to_u8: F) -> (r: Result<
        (),
        PngError,
    >)
        requires
            self.wf(),
            forall|i: int| 0 <= i < self.pixels().len() ==> call_requires(to_u8, (#[trigger] self.pixels()[i],)),
        ensures
            r is Err <==> (self.spec_width() == 0 || self.spec_height() == 0),
            r == Err::<(), PngError>(PngError::ZeroWidth) <==> self.spec_width() == 0,
            r is Err ==> final(out)@ == old(out)@,
            r is Ok ==> final(out)@.len() >= old(out)@.len() + 29 && final(out)@.subrange(
                old(out)@.len() as int,
                old(out)@.len() + 29int,
            ) == png_rgb8_header(self.spec_width(), self.spec_height()),
            r is Ok ==> exists|q: Seq<Rgb8>|
                {
                    &&& q.len() == self.pixels().len()
                    &&& forall|i: int| 0 <= i < q.len() ==> call_ensures(to_u8, (#[trigger] self.pixels()[i],), q[i])
                    &&& final(out)@ == old(out)@ + #[trigger] png_rgb8_encoding(
                        self.spec_width(),
                        self.spec_height(),
                        rgb_bytes(q),
                    )
                },
    {
        let mut data: Vec<u8> = Vec::new();
        let ghost mut q: Seq<Rgb8> = Seq::empty();
        let mut k: usize = 0;
        while k < self.data.len()
            invariant
                self.wf(),
                k <= self.data.len(),
                q.len() == k,
                data@ == rgb_bytes(q),
                forall|i: int| 0 <= i < self.pixels().len() ==> call_requires(to_u8, (#[trigger] self.pixels()[i],)),
                forall|i: int| 0 <= i < k ==> call_ensures(to_u8, (#[trigger] self.pixels()[i],), q[i]),
            decreases self.data.len() - k,
        {
            proof {
                assert(call_requires(to_u8, (self.pixels()[k as int],)));
            }
            let rgb: Rgb8 = to_u8(self.data[k]);
            data.push(rgb.0);
            data.push(rgb.1);
            data.push(rgb.2);
            proof {
                let q2 = q.push(rgb);
                assert(q2.drop_last() =~= q);
                assert(data@ =~= rgb_bytes(q2));
                q = q2;
            }
            k = k + 1;
        }
        proof {
            lemma_rgb_bytes_len(q);
            assert(data@.len() == self.width * self.height * 3) by (nonlinear_arith)
                requires
                    data@.len() == 3 * q.len(),
                    q.len() == self.width * self.height,
            ;
        }
        match encode_png_rgb8(self.width, self.height, data.as_slice()) {
            Ok(bytes) => {
                let mut i: usize = 0;
                let ghost out0 = out@;
                while i < bytes.len()
                    invariant
                        i <= bytes.len(),
                        out@ == out0 + bytes@.take(i as int),
                        bytes@ == png_rgb8_encoding(self.width, self.height, rgb_bytes(q)),
                        q.len() == self.pixels().len(),
                        forall|t: int| 0 <= t < q.len() ==> call_ensures(to_u8, (#[trigger] self.pixels()[t],), q[t]),
                    decreases bytes.len() - i,
                {
                    out.push(bytes[i]);
                    proof {
                        assert(out@ =~= out0 + bytes@.take(i + 1));
                    }
                    i = i + 1;
                }
                proof {
                    assert(bytes@.take(i as int) =~= bytes@);
                    assert(out@ == out0 + png_rgb8_encoding(self.spec_width(), self.spec_height(), rgb_bytes(q)));
                    assert(out0 == old(out)@);
                    assert(out@.subrange(out0.len() as int, out0.len() + 29int) =~= bytes@.take(29));
                }
                Ok(())
            },
            Err(_) => {
                if self.width == 0 {
                    Err(PngError::ZeroWidth)
                } else {
                    Err(PngError::ZeroHeight)
                }
            },
        }
    }

    /// Writes the PPM header into `writer`.
    fn write_ppm_header(&self, writer: &mut MaxWidthWriter, out: &mut Vec<u8>)
        requires
            self.wf(),
            old(writer).buffer() == Seq::<u8>::empty(),
            old(writer).cols() == PPM_LINE_WIDTH,
        ensures
            final(writer).cols() == PPM_LINE_WIDTH,
            final(out)@ == old(out)@ + feed(
                Seq::empty(),
                header_chunks(self.spec_width() as nat, self.spec_height() as nat),
                PPM_LINE_WIDTH as nat,
            ).0,
            final(writer).buffer() == feed(
                Seq::empty(),
                header_chunks(self.spec_width() as nat, self.spec_height() as nat),
                PPM_LINE_WIDTH as nat,
            ).1,
    {
        let p3: Vec<u8> = vec![80u8, 51u8, NEWLINE];
        let sp: Vec<u8> = vec![SPACE];
        let max: Vec<u8> = vec![NEWLINE, 50u8, 53u8, 53u8, NEWLINE];
        assert(p3@ =~= seq![80u8, 51u8, NEWLINE]);
        assert(sp@ =~= seq![SPACE]);
        assert(max@ =~= seq![NEWLINE, 50u8, 53u8, 53u8, NEWLINE]);
        let mut pieces: Vec<Vec<u8>> = Vec::new();
        pieces.push(p3);
        pieces.push(decimal_bytes(self.width));
        pieces.push(sp);
        pieces.push(decimal_bytes(self.height));
        pieces.push(max);
        proof {
            lemma_u32_below_pow10(self.width);
            lemma_u32_below_pow10(self.height);
            lemma_header(self.width as nat, self.height as nat);
            assert(pieces_view(pieces@) =~= header_chunks(self.width as nat, self.height as nat));
        }
        write_pieces(writer, &pieces, out);
    }

    /// Writes the pixels, row by row, into `writer`; returns the bytes that
    /// `to_u8` gave for them.
    fn write_ppm_data<F: Fn(P) -> Rgb8>(
        &self,
        writer: &mut MaxWidthWriter,
        out: &mut Vec<u8>,
        to_u8: F,
        Ghost(out0): Ghost<Seq<u8>>,
    ) -> (q: Ghost<Seq<Rgb8>>)
        requires
            self.wf(),
            self.spec_width() > 0,
            forall|i: int| 0 <= i < self.pixels().len() ==> call_requires(to_u8, (#[trigger] self.pixels()[i],)),
            old(writer).cols() == PPM_LINE_WIDTH,
            old(out)@ == out0 + feed(
                Seq::empty(),
                header_chunks(self.spec_width() as nat, self.spec_height() as nat),
                PPM_LINE_WIDTH as nat,
            ).0,
            old(writer).buffer() == feed(
                Seq::empty(),
                header_chunks(self.spec_width() as nat, self.spec_height() as nat),
                PPM_LINE_WIDTH as nat,
            ).1,
        ensures
            q@.len() == self.pixels().len(),
            forall|i: int| 0 <= i < q@.len() ==> call_ensures(to_u8, (#[trigger] self.pixels()[i],), q@[i]),
            final(out)@ == out0 + feed(
                Seq::empty(),
                ppm_chunks(self.spec_width() as nat, self.spec_height() as nat, q@),
                PPM_LINE_WIDTH as nat,
            ).0,
            final(writer).buffer() == feed(
                Seq::empty(),
                ppm_chunks(self.spec_width() as nat, self.spec_height() as nat, q@),
                PPM_LINE_WIDTH as nat,
            ).1,
    {
        let ghost e = Seq::<u8>::empty();
        let ghost n = PPM_LINE_WIDTH as nat;
        let ghost wn = self.width as nat;
        let ghost hn = self.height as nat;
        let w: usize = self.width as usize;
        let len: usize = self.data.len();
        let mut k: usize = 0;
        let mut col: usize = 0;
        let ghost mut q: Seq<Rgb8> = Seq::empty();
        proof {
            lemma_u32_below_pow10(self.width);
            lemma_u32_below_pow10(self.height);
            assert(header_chunks(wn, hn) + data_chunks(q, wn, 0) =~= header_chunks(wn, hn));
        }
        while k < len
            invariant
                self.wf(),
                len == self.data@.len(),
                w == self.width,
                w > 0,
                wn == w,
                hn == self.height,
                e == Seq::<u8>::empty(),
                n == PPM_LINE_WIDTH as nat,
                wn < crate::ppm::pow10(10),
                hn < crate::ppm::pow10(10),
                k <= len,
                col < w,
                col == (k as int) % (w as int),
                q.len() == k,
                forall|i: int| 0 <= i < self.pixels().len() ==> call_requires(to_u8, (#[trigger] self.pixels()[i],)),
                forall|i: int| 0 <= i < k ==> call_ensures(to_u8, (#[trigger] self.pixels()[i],), q[i]),
                writer.cols() == PPM_LINE_WIDTH,
                out@ == out0 + feed(e, header_chunks(wn, hn) + data_chunks(q, wn, k as nat), n).0,
                writer.buffer() == feed(e, header_chunks(wn, hn) + data_chunks(q, wn, k as nat), n).1,
            decreases len - k,
        {
            proof {
                assert(call_requires(to_u8, (self.pixels()[k as int],)));
            }
            let rgb: Rgb8 = to_u8(self.data[k]);
            let ghost q2 = q.push(rgb);
            let mut pieces: Vec<Vec<u8>> = Vec::new();
            if col > 0 {
                pieces.push(space_piece());
            }
            pieces.push(decimal_bytes(rgb.0 as u32));
            pieces.push(space_piece());
            pieces.push(decimal_bytes(rgb.1 as u32));
            pieces.push(space_piece());
            pieces.push(decimal_bytes(rgb.2 as u32));
            let row_done: bool = col + 1 == w;
            if row_done {
                pieces.push(newline_piece());
            }
            proof {
                let kk = k as nat;
                vstd::arithmetic::div_mod::lemma_fundamental_div_mod(k as int, w as int);
                let qq = (k as int) / (w as int);
                if col + 1 < w {
                    vstd::arithmetic::div_mod::lemma_fundamental_div_mod_converse(
                        k + 1,
                        w as int,
                        qq,
                        col + 1,
                    );
                } else {
                    assert((qq + 1) * (w as int) == qq * (w as int) + w) by (nonlinear_arith);
                    vstd::arithmetic::div_mod::lemma_fundamental_div_mod_converse(
                        k + 1,
                        w as int,
                        qq + 1,
                        0,
                    );
                }
                assert(((kk + 1) % wn == 0) == row_done);
                assert(pieces_view(pieces@) =~= pixel_step_chunks(q2, wn, kk));
                lemma_data_chunks_extend(q, q2, wn, kk);
                lemma_data_state(wn, hn, q2, kk + 1);
                let ci = header_chunks(wn, hn) + data_chunks(q2, wn, kk);
                assert(header_chunks(wn, hn) + data_chunks(q2, wn, kk + 1) =~= ci
                    + pixel_step_chunks(q2, wn, kk));
                lemma_feed_append(e, ci, pixel_step_chunks(q2, wn, kk), n);
            }
            write_pieces(writer, &pieces, out);
            proof {
                let kk = k as nat;
                let ci = header_chunks(wn, hn) + data_chunks(q2, wn, kk);
                let psc = pixel_step_chunks(q2, wn, kk);
                assert(out@ =~= out0 + feed(e, ci + psc, n).0);
                q = q2;
            }
            k = k + 1;
            col = if row_done { 0 } else { col + 1 };
        }
        proof {
            assert(ppm_chunks(wn, hn, q) == header_chunks(wn, hn) + data_chunks(q, wn, wn * hn));
        }
        Ghost(q)
    }
}

} // verus!

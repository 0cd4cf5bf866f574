use vstd::prelude::*;

use crate::color::{blend_channel, blend_channel_exec, lemma_blend_opaque, Rgba};

verus! {

/// Whether `(x, y)` lies on a `w` by `h` surface.
pub open spec fn in_bounds(w: int, h: int, x: int, y: int) -> bool {
    0 <= x < w && 0 <= y < h
}

/// Index of the red byte of pixel `(x, y)` in a row-major RGBA buffer.
pub open spec fn pixel_offset(w: int, x: int, y: int) -> int {
    (y * w + x) * 4
}

/// Byte `i % 4` of a color, in R, G, B, A order.
pub open spec fn channel(c: Rgba, k: int) -> u8 {
    if k == 0 {
        c.r
    } else if k == 1 {
        c.g
    } else if k == 2 {
        c.b
    } else {
        c.a
    }
}

/// The bytes after blending `c` over pixel `(x, y)`. A write with zero alpha
/// or outside the surface leaves every byte as it was.
pub open spec fn write_pixel(px: Seq<u8>, w: int, h: int, x: int, y: int, c: Rgba) -> Seq<u8> {
    if c.a == 0 || !in_bounds(w, h, x, y) {
        px
    } else {
        let o = pixel_offset(w, x, y);
        let a = c.a as int;
        px.update(o, blend_channel(c.r as int, px[o] as int, a) as u8).update(
            o + 1,
            blend_channel(c.g as int, px[o + 1] as int, a) as u8,
        ).update(o + 2, blend_channel(c.b as int, px[o + 2] as int, a) as u8).update(
            o + 3,
            blend_channel(255, px[o + 3] as int, a) as u8,
        )
    }
}

/// The bytes after writing the first `n` pixels of the row that starts at `(x, y)`,
/// left to right.
pub open spec fn write_row(
    px: Seq<u8>,
    w: int,
    h: int,
    x: int,
    y: int,
    n: nat,
    c: Rgba,
) -> Seq<u8>
    decreases n,
{
    if n == 0 {
        px
    } else {
        write_pixel(write_row(px, w, h, x, y, (n - 1) as nat, c), w, h, x + n - 1, y, c)
    }
}

/// The bytes after writing the first `rows` rows of a `cols` wide rectangle
/// whose top-left corner is `(x, y)`, top to bottom.
pub open spec fn write_rect(
    px: Seq<u8>,
    w: int,
    h: int,
    x: int,
    y: int,
    cols: nat,
    rows: nat,
    c: Rgba,
) -> Seq<u8>
    decreases rows,
{
    if rows == 0 {
        px
    } else {
        write_row(
            write_rect(px, w, h, x, y, cols, (rows - 1) as nat, c),
            w,
            h,
            x,
            y + rows - 1,
            cols,
            c,
        )
    }
}

pub proof fn lemma_offset_in_bounds(w: int, h: int, x: int, y: int)
    requires
        in_bounds(w, h, x, y),
    ensures
        0 <= pixel_offset(w, x, y),
        pixel_offset(w, x, y) + 4 <= w * h * 4,
{
    assert(0 <= y * w + x) by (nonlinear_arith)
        requires
            0 <= x < w,
            0 <= y < h,
    ;
    assert(y * w + x + 1 <= w * h) by (nonlinear_arith)
        requires
            0 <= x < w,
            0 <= y < h,
    ;
}

pub proof fn lemma_write_row_len(px: Seq<u8>, w: int, h: int, x: int, y: int, n: nat, c: Rgba)
    requires
        px.len() == w * h * 4,
    ensures
        write_row(px, w, h, x, y, n, c).len() == px.len(),
    decreases n,
{
    if n > 0 {
        lemma_write_row_len(px, w, h, x, y, (n - 1) as nat, c);
        if c.a != 0 && in_bounds(w, h, x + n - 1, y) {
            lemma_offset_in_bounds(w, h, x + n - 1, y);
        }
    }
}

pub proof fn lemma_write_rect_len(
    px: Seq<u8>,
    w: int,
    h: int,
    x: int,
    y: int,
    cols: nat,
    rows: nat,
    c: Rgba,
)
    requires
        px.len() == w * h * 4,
    ensures
        write_rect(px, w, h, x, y, cols, rows, c).len() == px.len(),
    decreases rows,
{
    if rows > 0 {
        lemma_write_rect_len(px, w, h, x, y, cols, (rows - 1) as nat, c);
        lemma_write_row_len(
            write_rect(px, w, h, x, y, cols, (rows - 1) as nat, c),
            w,
            h,
            x,
            y + rows - 1,
            cols,
            c,
        );
    }
}

/// Blending an opaque color over a pixel of the surface sets it to exactly
/// that color; a color with zero alpha, or a pixel off the surface, leaves
/// every byte as it was.
pub proof fn lemma_write_pixel_laws(px: Seq<u8>, w: int, h: int, x: int, y: int, c: Rgba)
    requires
        px.len() == w * h * 4,
    ensures
        write_pixel(px, w, h, x, y, c).len() == px.len(),
        c.a == 0 || !in_bounds(w, h, x, y) ==> write_pixel(px, w, h, x, y, c) == px,
        c.a == 255 && in_bounds(w, h, x, y) ==> ({
            let o = pixel_offset(w, x, y);
            let q = write_pixel(px, w, h, x, y, c);
            &&& q[o] == c.r
            &&& q[o + 1] == c.g
            &&& q[o + 2] == c.b
            &&& q[o + 3] == 255
            &&& forall|i: int| 0 <= i < px.len() && !(o <= i < o + 4) ==> q[i] == px[i]
        }),
{
    if c.a != 0 && in_bounds(w, h, x, y) {
        lemma_offset_in_bounds(w, h, x, y);
        let o = pixel_offset(w, x, y);
        lemma_blend_opaque(c.r as int, px[o] as int);
        lemma_blend_opaque(c.g as int, px[o + 1] as int);
        lemma_blend_opaque(c.b as int, px[o + 2] as int);
        lemma_blend_opaque(255, px[o + 3] as int);
    }
}

/// A row-major RGBA pixel buffer, four bytes per pixel.
pub struct RenderSurface {
    pub width: u32,
    pub height: u32,
    pub pixels: Vec<u8>,
}

impl RenderSurface {
    pub open spec fn wf(&self) -> bool {
        self.pixels@.len() == self.width * self.height * 4
    }

    /// A surface of the given size with every byte zero; `None` where its
    /// byte count does not fit in `usize`.
    pub fn new(width: u32, height: u32) -> (r: Option<RenderSurface>)
        ensures
            (width as int * height as int * 4 <= usize::MAX) <==> r is Some,
            r matches Some(s) ==> s.wf() && s.width == width && s.height == height && (forall|
                i: int,
            |
                0 <= i < s.pixels@.len() ==> s.pixels@[i] == 0u8),
    {
        let n = match (width as usize).checked_mul(height as usize) {
            Some(p) => p.checked_mul(4),
            None => None,
        };
        match n {
            Some(n) => {
                let mut pixels: Vec<u8> = Vec::with_capacity(n);
                let mut i: usize = 0;
                while i < n
                    invariant
                        i <= n,
                        pixels@.len() == i,
                        forall|j: int| 0 <= j < i ==> pixels@[j] == 0u8,
                    decreases n - i,
                {
                    pixels.push(0u8);
                    i = i + 1;
                }
                Some(RenderSurface { width, height, pixels })
            },
            None => {
                assert(width as int * height as int * 4 > usize::MAX) by (nonlinear_arith)
                    requires
                        width as int * height as int > usize::MAX || (width as int
                            * height as int) * 4 > usize::MAX,
                ;
                None
            },
        }
    }

    /// Sets every pixel to `c`.
    pub fn fill_color(&mut self, c: Rgba)
        requires
            old(self).wf(),
        ensures
            final(self).wf(),
            final(self).width == old(self).width,
            final(self).height == old(self).height,
            forall|i: int|
                0 <= i < final(self).pixels@.len() ==> #[trigger] final(self).pixels@[i] == channel(
                    c,
                    i % 4,
                ),
    {
        let n = self.pixels.len();
        let mut i: usize = 0;
        while i < n
            invariant
                n == self.pixels@.len(),
                self.wf(),
                self.width == old(self).width,
                self.height == old(self).height,
                i <= n,
                forall|j: int| 0 <= j < i ==> #[trigger] self.pixels@[j] == channel(c, j % 4),
            decreases n - i,
        {
            let k = i % 4;
            let v = if k == 0 {
                c.r
            } else if k == 1 {
                c.g
            } else if k == 2 {
                c.b
            } else {
                c.a
            };
            self.pixels.set(i, v);
            i = i + 1;
        }
    }

    /// Copies the whole pixels at the front of `src` into the surface, as
    /// many as both hold; the bytes after them stay as they were.
    pub fn fill_from_pixels(&mut self, src: &Vec<u8>)
        requires
            old(self).wf(),
        ensures
            final(self).wf(),
            final(self).width == old(self).width,
            final(self).height == old(self).height,
            forall|i: int|
                0 <= i < final(self).pixels@.len() ==> #[trigger] final(self).pixels@[i] == if i
                    < src@.len() - src@.len() % 4 {
                    src@[i]
                } else {
                    old(self).pixels@[i]
                },
    {
        let whole = src.len() - src.len() % 4;
        let n = if whole < self.pixels.len() {
            whole
        } else {
            self.pixels.len()
        };
        let mut i: usize = 0;
        while i < n
            invariant
                n <= self.pixels@.len(),
                n <= src@.len() - src@.len() % 4,
                n == self.pixels@.len() || n == src@.len() - src@.len() % 4,
                whole == src@.len() - src@.len() % 4,
                self.wf(),
                self.width == old(self).width,
                self.height == old(self).height,
                i <= n,
                forall|j: int| 0 <= j < i ==> #[trigger] self.pixels@[j] == src@[j],
                forall|j: int|
                    i <= j < self.pixels@.len() ==> #[trigger] self.pixels@[j] == old(
                        self,
                    ).pixels@[j],
            decreases n - i,
        {
            self.pixels.set(i, src[i]);
            i = i + 1;
        }
    }

    /// Blends `c` over pixel `(x, y)`; does nothing where alpha is zero or the
    /// pixel lies off the surface.
    pub fn draw_pixel(&mut self, x: i64, y: i64, c: Rgba)
        requires
            old(self).wf(),
        ensures
            final(self).wf(),
            final(self).width == old(self).width,
            final(self).height == old(self).height,
            final(self).pixels@ == write_pixel(
                old(self).pixels@,
                old(self).width as int,
                old(self).height as int,
                x as int,
                y as int,
                c,
            ),
    {
        if c.a == 0 {
            return ;
        }
        if y < 0 || y >= self.height as i64 {
            return ;
        }
        if x < 0 || x >= self.width as i64 {
            return ;
        }
        let len = self.pixels.len();
        proof {
            lemma_offset_in_bounds(self.width as int, self.height as int, x as int, y as int);
            assert(0 <= (y as int) * (self.width as int)) by (nonlinear_arith)
                requires
                    y >= 0,
            ;
        }
        let o = ((y as usize) * (self.width as usize) + (x as usize)) * 4;
        let r = blend_channel_exec(c.r, self.pixels[o], c.a);
        let g = blend_channel_exec(c.g, self.pixels[o + 1], c.a);
        let b = blend_channel_exec(c.b, self.pixels[o + 2], c.a);
        let a = blend_channel_exec(255, self.pixels[o + 3], c.a);
        self.pixels.set(o, r);
        self.pixels.set(o + 1, g);
        self.pixels.set(o + 2, b);
        self.pixels.set(o + 3, a);
    }

    /// Blends `c` over each pixel of the `w` by `h` rectangle whose top-left
    /// corner is `(x, y)`, row by row.
    pub fn fill_rect(&mut self, x: i64, y: i64, w: u32, h: u32, c: Rgba)
        requires
            old(self).wf(),
            i64::MIN + 1 <= x <= i64::MAX - u32::MAX,
            i64::MIN + 1 <= y <= i64::MAX - u32::MAX,
        ensures
            final(self).wf(),
            final(self).width == old(self).width,
            final(self).height == old(self).height,
            final(self).pixels@ == write_rect(
                old(self).pixels@,
                old(self).width as int,
                old(self).height as int,
                x as int,
                y as int,
                w as nat,
                h as nat,
                c,
            ),
    {
        let ghost px0 = self.pixels@;
        let ghost sw = self.width as int;
        let ghost sh = self.height as int;
        let mut row: u32 = 0;
        while row < h
            invariant
                self.wf(),
                self.width == old(self).width,
                self.height == old(self).height,
                px0 == old(self).pixels@,
                sw == self.width,
                sh == self.height,
                row <= h,
                i64::MIN + 1 <= x <= i64::MAX - u32::MAX,
                i64::MIN + 1 <= y <= i64::MAX - u32::MAX,
                self.pixels@ == write_rect(px0, sw, sh, x as int, y as int, w as nat, row as nat, c),
            decreases h - row,
        {
            let ghost before = self.pixels@;
            let mut col: u32 = 0;
            while col < w
                invariant
                    self.wf(),
                    self.width == old(self).width,
                    self.height == old(self).height,
                    sw == self.width,
                    sh == self.height,
                    col <= w,
                    row < h,
                    i64::MIN + 1 <= x <= i64::MAX - u32::MAX,
                    i64::MIN + 1 <= y <= i64::MAX - u32::MAX,
                    self.pixels@ == write_row(
                        before,
                        sw,
                        sh,
                        x as int,
                        y + row,
                        col as nat,
                        c,
                    ),
                decreases w - col,
            {
                self.draw_pixel(x + col as i64, y + row as i64, c);
                col = col + 1;
            }
            row = row + 1;
        }
    }
}

} // verus!

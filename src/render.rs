use vstd::prelude::*;

use crate::color::{black, Rgba};
use crate::surface::{channel, write_rect, lemma_write_rect_len, RenderSurface};
use crate::buffer::TextAttrs;

verus! {

/// Where the text block sits vertically inside the render target.
#[derive(Clone, Copy, Debug, PartialEq, Eq)]
pub enum VerticalAlign {
    Top,
    Center,
    Bottom,
}

/// How lines are broken horizontally.
#[derive(Clone, Copy, Debug, PartialEq, Eq)]
pub enum CosmicWrap {
    /// Lines wrap at the render target's width.
    Wrap,
    /// Lines never wrap.
    InfiniteLine,
}

/// Width that layout may use: the target's width when wrapping, `None` for no bound.
pub fn wrap_width(wrap: CosmicWrap, render_target_width: u32) -> (r: Option<u32>)
    ensures
        r == (match wrap {
            CosmicWrap::Wrap => Some(render_target_width),
            CosmicWrap::InfiniteLine => None,
        }),
{
    match wrap {
        CosmicWrap::Wrap => Some(render_target_width),
        CosmicWrap::InfiniteLine => None,
    }
}

/// Padding above the text block for an alignment, never negative.
pub open spec fn top_padding_of(align: VerticalAlign, target_height: int, buffer_height: int) -> int {
    match align {
        VerticalAlign::Top => 0,
        VerticalAlign::Bottom => if target_height > buffer_height {
            target_height - buffer_height
        } else {
            0
        },
        VerticalAlign::Center => if target_height > buffer_height {
            (target_height - buffer_height) / 2
        } else {
            0
        },
    }
}

/// A point in integer pixel coordinates.
#[derive(Clone, Copy, Debug, PartialEq, Eq)]
pub struct Point {
    pub x: i64,
    pub y: i64,
}

/// Maps between the render target's coordinates and the text buffer's, which
/// differ by the vertical padding that alignment puts above the text.
pub struct WidgetBufferCoordTransformation {
    pub top_padding: u32,
}

impl WidgetBufferCoordTransformation {
    pub fn new(vertical_align: VerticalAlign, render_target_height: u32, buffer_height: u32) -> (r:
        WidgetBufferCoordTransformation)
        ensures
            r.top_padding == top_padding_of(
                vertical_align,
                render_target_height as int,
                buffer_height as int,
            ),
    {
        let top_padding = match vertical_align {
            VerticalAlign::Top => 0,
            VerticalAlign::Bottom => if render_target_height > buffer_height {
                render_target_height - buffer_height
            } else {
                0
            },
            VerticalAlign::Center => if render_target_height > buffer_height {
                (render_target_height - buffer_height) / 2
            } else {
                0
            },
        };
        WidgetBufferCoordTransformation { top_padding }
    }

    /// From buffer coordinates (where the text is laid out) to widget coordinates.
    pub fn buffer_to_widget(&self, buffer: Point) -> (r: Point)
        requires
            buffer.y <= i64::MAX - u32::MAX,
        ensures
            r.x == buffer.x && r.y == buffer.y + self.top_padding,
    {
        Point { x: buffer.x, y: buffer.y + self.top_padding as i64 }
    }

    /// From widget coordinates (a pointer position, say) to buffer coordinates.
    pub fn widget_to_buffer(&self, widget: Point) -> (r: Point)
        requires
            widget.y >= i64::MIN + u32::MAX,
        ensures
            r.x == widget.x && r.y == widget.y - self.top_padding,
    {
        Point { x: widget.x, y: widget.y - self.top_padding as i64 }
    }
}

/// A rectangle of one color handed out by layout, in buffer coordinates.
#[derive(Clone, Copy, Debug, PartialEq, Eq)]
pub struct DrawRect {
    pub x: i32,
    pub y: i32,
    pub w: u32,
    pub h: u32,
    pub color: Rgba,
}

/// The bytes after blending each rectangle in turn, shifted down by `pad`.
pub open spec fn draw_rects_spec(px: Seq<u8>, w: int, h: int, rects: Seq<DrawRect>, pad: int) -> Seq<
    u8,
>
    decreases rects.len(),
{
    if rects.len() == 0 {
        px
    } else {
        let r = rects.last();
        write_rect(
            draw_rects_spec(px, w, h, rects.drop_last(), pad),
            w,
            h,
            r.x as int,
            r.y + pad,
            r.w as nat,
            r.h as nat,
            r.color,
        )
    }
}

proof fn lemma_draw_rects_len(px: Seq<u8>, w: int, h: int, rects: Seq<DrawRect>, pad: int)
    requires
        px.len() == w * h * 4,
    ensures
        draw_rects_spec(px, w, h, rects, pad).len() == px.len(),
    decreases rects.len(),
{
    if rects.len() > 0 {
        lemma_draw_rects_len(px, w, h, rects.drop_last(), pad);
        let r = rects.last();
        lemma_write_rect_len(
            draw_rects_spec(px, w, h, rects.drop_last(), pad),
            w,
            h,
            r.x as int,
            r.y + pad,
            r.w as nat,
            r.h as nat,
            r.color,
        );
    }
}

impl RenderSurface {
    /// Blends each rectangle in order, mapped to widget coordinates by `t`.
    pub fn draw_rects(&mut self, rects: &Vec<DrawRect>, t: &WidgetBufferCoordTransformation)
        requires
            old(self).wf(),
        ensures
            final(self).wf(),
            final(self).width == old(self).width,
            final(self).height == old(self).height,
            final(self).pixels@ == draw_rects_spec(
                old(self).pixels@,
                old(self).width as int,
                old(self).height as int,
                rects@,
                t.top_padding as int,
            ),
    {
        let ghost px0 = self.pixels@;
        let mut i: usize = 0;
        while i < rects.len()
            invariant
                self.wf(),
                self.width == old(self).width,
                self.height == old(self).height,
                px0 == old(self).pixels@,
                i <= rects@.len(),
                self.pixels@ == draw_rects_spec(
                    px0,
                    self.width as int,
                    self.height as int,
                    rects@.take(i as int),
                    t.top_padding as int,
                ),
            decreases rects@.len() - i,
        {
            let r = rects[i];
            let widget = t.buffer_to_widget(Point { x: r.x as i64, y: r.y as i64 });
            self.fill_rect(widget.x, widget.y, r.w, r.h, r.color);
            assert(rects@.take(i + 1).drop_last() =~= rects@.take(i as int));
            i = i + 1;
        }
        assert(rects@.take(rects@.len() as int) =~= rects@);
    }
}

/// An RGBA picture, row-major, four bytes per pixel.
pub struct BackgroundImage {
    pub width: u32,
    pub height: u32,
    pub pixels: Vec<u8>,
}

impl BackgroundImage {
    /// Non-empty, and its bytes are exactly its pixels.
    pub open spec fn usable(&self) -> bool {
        self.width > 0 && self.height > 0 && self.pixels@.len() == self.width * self.height * 4
    }
}

/// What is painted under the text.
pub enum Background {
    Color(Rgba),
    /// A picture, with the widget's background color for wherever the
    /// picture is unusable or does not reach.
    Image { image: BackgroundImage, fallback: Rgba },
    /// A picture is bound but not available yet: the background color is used.
    Unloaded(Rgba),
}

/// The RGBA bytes of `src` (a `width` by `height` picture) scaled to cover
/// `nwidth` by `nheight` and cropped to it.
pub uninterp spec fn resized_to_fill(
    src: Seq<u8>,
    width: u32,
    height: u32,
    nwidth: u32,
    nheight: u32,
) -> Seq<u8>;

/// Relies on image's `DynamicImage::resize_to_fill` with the triangle filter,
/// read back with `to_rgba8`: the result depends on the bytes and sizes alone.
#[verifier::external_body]
fn resize_to_fill(src: &Vec<u8>, width: u32, height: u32, nwidth: u32, nheight: u32) -> (r: Vec<
    u8,
>)
    requires
        width > 0,
        height > 0,
        nwidth > 0,
        nheight > 0,
        src@.len() == width * height * 4,
    ensures
        r@ == resized_to_fill(src@, width, height, nwidth, nheight),
{
    let img = image::RgbaImage::from_raw(width, height, src.clone()).unwrap();
    let img = image::DynamicImage::ImageRgba8(img);
    img.resize_to_fill(nwidth, nheight, image::imageops::FilterType::Triangle).to_rgba8().into_raw()
}

/// The picture's bytes at the target size: as they are where the sizes
/// agree, else resized to fill the target.
pub open spec fn image_at_size(img: BackgroundImage, width: u32, height: u32) -> Seq<u8> {
    if img.width == width && img.height == height {
        img.pixels@
    } else {
        resized_to_fill(img.pixels@, img.width, img.height, width, height)
    }
}

/// Tests `usable`.
pub fn image_usable(img: &BackgroundImage) -> (r: bool)
    ensures
        r == img.usable(),
{
    if img.width == 0 || img.height == 0 {
        return false;
    }
    let len = img.pixels.len();
    match (img.width as usize).checked_mul(img.height as usize) {
        Some(p) => match p.checked_mul(4) {
            Some(n) => len == n,
            None => {
                assert(img.pixels@.len() != img.width * img.height * 4);
                false
            },
        },
        None => {
            assert(img.pixels@.len() != img.width * img.height * 4) by (nonlinear_arith)
                requires
                    img.width * img.height > usize::MAX,
                    img.pixels@.len() <= usize::MAX,
            ;
            false
        },
    }
}

pub fn background_pixels(img: &BackgroundImage, width: u32, height: u32) -> (r: Vec<u8>)
    requires
        img.usable(),
        width > 0,
        height > 0,
    ensures
        r@ == image_at_size(*img, width, height),
{
    if img.width == width && img.height == height {
        let mut out: Vec<u8> = Vec::new();
        let mut i: usize = 0;
        while i < img.pixels.len()
            invariant
                i <= img.pixels@.len(),
                out@ == img.pixels@.take(i as int),
            decreases img.pixels@.len() - i,
        {
            out.push(img.pixels[i]);
            i = i + 1;
            assert(out@ =~= img.pixels@.take(i as int));
        }
        assert(img.pixels@.take(i as int) =~= img.pixels@);
        out
    } else {
        resize_to_fill(&img.pixels, img.width, img.height, width, height)
    }
}

/// The surface's bytes once the background is painted: the color in every
/// pixel; or an image's whole pixels, as many as fit, over its fallback
/// color, which alone fills the surface where the image is missing or
/// unusable.
pub open spec fn background_layer(bg: Background, width: u32, height: u32) -> Seq<u8> {
    Seq::new(
        (width * height * 4) as nat,
        |i: int|
            match bg {
                Background::Color(c) => channel(c, i % 4),
                Background::Image { image, fallback } => if image.usable() {
                    let src = image_at_size(image, width, height);
                    if i < src.len() - src.len() % 4 {
                        src[i]
                    } else {
                        channel(fallback, i % 4)
                    }
                } else {
                    channel(fallback, i % 4)
                },
                Background::Unloaded(fallback) => channel(fallback, i % 4),
            },
    )
}

/// Allocates the surface for one render pass, paints the background and
/// blends the rectangles that layout produced, in order. Nothing is drawn
/// (`None`) for a zero-sized target or one whose bytes do not fit in memory.
pub fn render_texture(
    width: u32,
    height: u32,
    background: &Background,
    t: &WidgetBufferCoordTransformation,
    rects: &Vec<DrawRect>,
) -> (r: Option<RenderSurface>)
    ensures
        r is Some <==> (width > 0 && height > 0 && width as int * height as int * 4 <= usize::MAX),
        r matches Some(s) ==> s.wf() && s.width == width && s.height == height && s.pixels@
            == draw_rects_spec(
            background_layer(*background, width, height),
            width as int,
            height as int,
            rects@,
            t.top_padding as int,
        ),
{
    if width == 0 || height == 0 {
        return None;
    }
    let mut surface = match RenderSurface::new(width, height) {
        Some(s) => s,
        None => return None,
    };
    match background {
        Background::Color(c) => surface.fill_color(*c),
        Background::Image { image, fallback } => {
            surface.fill_color(*fallback);
            if image_usable(image) {
                let src = background_pixels(image, width, height);
                surface.fill_from_pixels(&src);
            }
        },
        Background::Unloaded(fallback) => surface.fill_color(*fallback),
    }
    assert(surface.pixels@ =~= background_layer(*background, width, height));
    surface.draw_rects(rects, t);
    Some(surface)
}

/// One render pass gated by a redraw flag. While the flag is clear nothing
/// is composed and the previous picture stays (`None`). Otherwise the
/// surface is composed as `render_texture` does, and the flag is cleared
/// once that succeeded.
pub fn render_if_needed(
    redraw: &mut bool,
    width: u32,
    height: u32,
    background: &Background,
    t: &WidgetBufferCoordTransformation,
    rects: &Vec<DrawRect>,
) -> (r: Option<RenderSurface>)
    ensures
        r is Some <==> (*old(redraw) && width > 0 && height > 0 && width as int * height as int * 4
            <= usize::MAX),
        *final(redraw) == (*old(redraw) && r is None),
        r matches Some(s) ==> s.wf() && s.width == width && s.height == height && s.pixels@
            == draw_rects_spec(
            background_layer(*background, width, height),
            width as int,
            height as int,
            rects@,
            t.top_padding as int,
        ),
{
    if !*redraw {
        return None;
    }
    let r = render_texture(width, height, background, t, rects);
    if r.is_some() {
        *redraw = false;
    }
    r
}

/// Colors of one render pass.
#[derive(Clone, Copy, Debug, PartialEq, Eq)]
pub struct RenderColors {
    pub font: Rgba,
    pub cursor: Rgba,
    pub selection: Rgba,
    pub selected_text: Rgba,
}

/// The widget's color settings.
#[derive(Clone, Copy, Debug, PartialEq, Eq)]
pub struct ColorSettings {
    pub cursor: Rgba,
    pub selection: Rgba,
    pub selected_text: Option<Rgba>,
}

/// Font color of the default style, opaque black where it names none.
pub open spec fn font_color_of(attrs: TextAttrs) -> Rgba {
    match attrs.color {
        Some(c) => c,
        None => Rgba { r: 0, g: 0, b: 0, a: 255 },
    }
}

/// Resolves the colors to draw with: the cursor is fully transparent while
/// it blinks off and on a read-only widget; selected text falls back to the
/// font color.
pub fn resolve_colors(
    attrs: &TextAttrs,
    settings: &ColorSettings,
    cursor_visible: bool,
    read_only: bool,
) -> (r: RenderColors)
    ensures
        r.font == font_color_of(*attrs),
        r.cursor == (if cursor_visible && !read_only {
            settings.cursor
        } else {
            Rgba { a: 0, ..settings.cursor }
        }),
        r.selection == settings.selection,
        r.selected_text == (match settings.selected_text {
            Some(c) => c,
            None => font_color_of(*attrs),
        }),
{
    let font = match attrs.color {
        Some(c) => c,
        None => black(),
    };
    let cursor = if cursor_visible && !read_only {
        settings.cursor
    } else {
        settings.cursor.with_alpha(0)
    };
    let selected_text = match settings.selected_text {
        Some(c) => c,
        None => font,
    };
    RenderColors { font, cursor, selection: settings.selection, selected_text }
}

} // verus!

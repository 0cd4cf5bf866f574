use cosmic_edit::buffer::TextAttrs;
use cosmic_edit::color::{blend_channel_exec, black, Rgba};
use cosmic_edit::render::{
    background_pixels, render_if_needed, render_texture, resolve_colors, wrap_width, Background, BackgroundImage,
    ColorSettings, CosmicWrap, DrawRect, Point, VerticalAlign, WidgetBufferCoordTransformation,
};
use cosmic_edit::surface::RenderSurface;

fn pixel(s: &RenderSurface, x: usize, y: usize) -> [u8; 4] {
    let o = (y * s.width as usize + x) * 4;
    [s.pixels[o], s.pixels[o + 1], s.pixels[o + 2], s.pixels[o + 3]]
}

#[test]
fn opaque_blend_gives_source() {
    let mut s = RenderSurface::new(2, 2).unwrap();
    s.fill_color(Rgba::rgba(10, 20, 30, 40));
    s.draw_pixel(1, 0, Rgba::rgb(200, 100, 50));
    assert_eq!(pixel(&s, 1, 0), [200, 100, 50, 255]);
    assert_eq!(pixel(&s, 0, 0), [10, 20, 30, 40]);
}

#[test]
fn zero_alpha_leaves_destination() {
    let mut s = RenderSurface::new(2, 2).unwrap();
    s.fill_color(Rgba::rgba(10, 20, 30, 40));
    let before = s.pixels.clone();
    s.draw_pixel(0, 0, Rgba::rgba(255, 255, 255, 0));
    assert_eq!(s.pixels, before);
}

#[test]
fn half_alpha_blend_value() {
    assert_eq!(blend_channel_exec(200, 100, 128), 150);
    let mut s = RenderSurface::new(1, 1).unwrap();
    s.fill_color(Rgba::rgba(100, 100, 100, 255));
    s.draw_pixel(0, 0, Rgba::rgba(200, 0, 100, 128));
    assert_eq!(pixel(&s, 0, 0), [150, 49, 100, 255]);
}

#[test]
fn off_surface_writes_are_dropped() {
    let mut s = RenderSurface::new(3, 2).unwrap();
    s.fill_color(Rgba::rgb(1, 2, 3));
    let before = s.pixels.clone();
    let c = Rgba::rgb(255, 255, 255);
    for (x, y) in [(-1, 0), (0, -1), (3, 0), (0, 2), (i64::MIN, i64::MAX), (i64::MAX, 0)] {
        s.draw_pixel(x, y, c);
    }
    s.fill_rect(-10, -10, 5, 5, c);
    assert_eq!(s.pixels, before);
}

#[test]
fn fill_rect_clips_at_edges() {
    let mut s = RenderSurface::new(3, 3).unwrap();
    s.fill_rect(1, 1, 5, 5, Rgba::rgb(9, 9, 9));
    assert_eq!(pixel(&s, 0, 0), [0, 0, 0, 0]);
    assert_eq!(pixel(&s, 2, 2), [9, 9, 9, 255]);
    assert_eq!(pixel(&s, 1, 0), [0, 0, 0, 0]);
}

#[test]
fn vertical_alignment_padding() {
    assert_eq!(WidgetBufferCoordTransformation::new(VerticalAlign::Bottom, 100, 40).top_padding, 60);
    assert_eq!(WidgetBufferCoordTransformation::new(VerticalAlign::Center, 100, 40).top_padding, 30);
    assert_eq!(WidgetBufferCoordTransformation::new(VerticalAlign::Top, 100, 40).top_padding, 0);
    assert_eq!(WidgetBufferCoordTransformation::new(VerticalAlign::Bottom, 40, 100).top_padding, 0);
    assert_eq!(WidgetBufferCoordTransformation::new(VerticalAlign::Center, 40, 100).top_padding, 0);
}

#[test]
fn transform_maps_both_ways() {
    let t = WidgetBufferCoordTransformation::new(VerticalAlign::Bottom, 100, 40);
    let w = t.buffer_to_widget(Point { x: 5, y: 7 });
    assert_eq!(w, Point { x: 5, y: 67 });
    assert_eq!(t.widget_to_buffer(w), Point { x: 5, y: 7 });
}

#[test]
fn wrap_modes() {
    assert_eq!(wrap_width(CosmicWrap::Wrap, 120), Some(120));
    assert_eq!(wrap_width(CosmicWrap::InfiniteLine, 120), None);
}

#[test]
fn zero_sized_target_renders_nothing() {
    let t = WidgetBufferCoordTransformation::new(VerticalAlign::Top, 0, 0);
    assert!(render_texture(0, 5, &Background::Unloaded(Rgba::rgba(0, 0, 0, 0)), &t, &Vec::new()).is_none());
    assert!(render_texture(5, 0, &Background::Unloaded(Rgba::rgba(0, 0, 0, 0)), &t, &Vec::new()).is_none());
}

#[test]
fn render_paints_background_then_rects_shifted_by_padding() {
    let t = WidgetBufferCoordTransformation::new(VerticalAlign::Bottom, 4, 2);
    let rects = vec![DrawRect { x: 1, y: 0, w: 1, h: 1, color: Rgba::rgb(255, 0, 0) }];
    let s = render_texture(3, 4, &Background::Color(Rgba::rgb(0, 0, 255)), &t, &rects).unwrap();
    assert_eq!(s.pixels.len(), 3 * 4 * 4);
    assert_eq!(pixel(&s, 1, 2), [255, 0, 0, 255]);
    assert_eq!(pixel(&s, 1, 0), [0, 0, 255, 255]);
    assert_eq!(pixel(&s, 0, 2), [0, 0, 255, 255]);
}

#[test]
fn unloaded_background_uses_color() {
    let t = WidgetBufferCoordTransformation::new(VerticalAlign::Top, 2, 0);
    let s = render_texture(2, 2, &Background::Unloaded(Rgba::rgba(0, 0, 0, 0)), &t, &Vec::new()).unwrap();
    assert!(s.pixels.iter().all(|b| *b == 0));
}

#[test]
fn same_size_background_image_is_copied() {
    let img = BackgroundImage { width: 2, height: 1, pixels: vec![1, 2, 3, 4, 5, 6, 7, 8] };
    let t = WidgetBufferCoordTransformation::new(VerticalAlign::Top, 1, 0);
    let s = render_texture(2, 1, &Background::Image { image: img, fallback: Rgba::rgb(1, 1, 1) }, &t, &Vec::new()).unwrap();
    assert_eq!(s.pixels, vec![1, 2, 3, 4, 5, 6, 7, 8]);
}

#[test]
fn background_image_is_resized_to_fill() {
    let img = BackgroundImage { width: 2, height: 2, pixels: vec![200; 16] };
    let out = background_pixels(&img, 4, 4);
    assert_eq!(out.len(), 4 * 4 * 4);
    assert!(out.iter().all(|b| *b == 200));
    let t = WidgetBufferCoordTransformation::new(VerticalAlign::Top, 4, 0);
    let s = render_texture(4, 4, &Background::Image { image: img, fallback: Rgba::rgb(1, 1, 1) }, &t, &Vec::new()).unwrap();
    assert_eq!(s.pixels, out);
}

#[test]
fn malformed_background_image_is_ignored() {
    let img = BackgroundImage { width: 2, height: 2, pixels: vec![200; 5] };
    let t = WidgetBufferCoordTransformation::new(VerticalAlign::Top, 1, 0);
    let s = render_texture(1, 1, &Background::Image { image: img, fallback: Rgba::rgb(1, 1, 1) }, &t, &Vec::new()).unwrap();
    assert_eq!(s.pixels, vec![1, 1, 1, 255]);
}

fn settings() -> ColorSettings {
    ColorSettings { cursor: Rgba::rgb(0, 255, 0), selection: Rgba::rgba(0, 0, 255, 100), selected_text: None }
}

#[test]
fn colors_fall_back_to_black_and_font() {
    let c = resolve_colors(&TextAttrs::new(), &settings(), true, false);
    assert_eq!(c.font, black());
    assert_eq!(c.selected_text, black());
    assert_eq!(c.cursor, Rgba::rgb(0, 255, 0));
    assert_eq!(c.selection, Rgba::rgba(0, 0, 255, 100));
    let attrs = TextAttrs { color: Some(Rgba::rgb(1, 2, 3)), weight: 400, italic: false };
    let c = resolve_colors(&attrs, &settings(), false, false);
    assert_eq!(c.font, Rgba::rgb(1, 2, 3));
    assert_eq!(c.cursor.a, 0);
}

#[test]
fn read_only_widget_shows_no_cursor() {
    let t = WidgetBufferCoordTransformation::new(VerticalAlign::Top, 4, 4);
    let bg = Background::Color(Rgba::rgb(255, 255, 255));
    for (read_only, expect_cursor) in [(true, false), (false, true)] {
        let colors = resolve_colors(&TextAttrs::new(), &settings(), true, read_only);
        let cursor = DrawRect { x: 1, y: 0, w: 1, h: 4, color: colors.cursor };
        let s = render_texture(4, 4, &bg, &t, &vec![cursor]).unwrap();
        let drawn = pixel(&s, 1, 2) == [0, 255, 0, 255];
        assert_eq!(drawn, expect_cursor);
        if read_only {
            assert_eq!(pixel(&s, 1, 2), [255, 255, 255, 255]);
        }
    }
}

#[test]
fn render_skipped_while_clean() {
    let t = WidgetBufferCoordTransformation::new(VerticalAlign::Top, 2, 0);
    let bg = Background::Color(Rgba::rgb(3, 3, 3));
    let mut redraw = false;
    assert!(render_if_needed(&mut redraw, 2, 2, &bg, &t, &Vec::new()).is_none());
    assert!(!redraw);
    redraw = true;
    let s = render_if_needed(&mut redraw, 2, 2, &bg, &t, &Vec::new()).unwrap();
    assert_eq!(s.pixels, [3, 3, 3, 255].repeat(4));
    assert!(!redraw);
    redraw = true;
    assert!(render_if_needed(&mut redraw, 0, 2, &bg, &t, &Vec::new()).is_none());
    assert!(redraw);
}

use cosmic_edit::buffer::{
    layout_height, layout_width, Buffer, HorizontalAlign, BufferRefExtras, CosmicEditBuffer, LayoutRun, Metrics,
    Span, StyledLine, TextAttrs,
};
use cosmic_edit::color::Rgba;

fn red() -> TextAttrs {
    TextAttrs { color: Some(Rgba::rgb(255, 0, 0)), weight: 400, italic: false }
}

fn metrics() -> Metrics {
    Metrics { font_size: 16, line_height: 16 }
}

#[test]
fn set_text_splits_at_newlines() {
    let b = CosmicEditBuffer::new(metrics()).with_text("ab\ncd\n", TextAttrs::new());
    assert_eq!(b.0.lines.len(), 3);
    assert_eq!(b.0.lines[0].text, "ab");
    assert_eq!(b.0.lines[1].text, "cd");
    assert_eq!(b.0.lines[2].text, "");
    assert_eq!(b.0.get_text(), "ab\ncd\n");
    assert!(b.0.redraw);
}

#[test]
fn new_buffer_is_one_empty_line() {
    let b = CosmicEditBuffer::new(metrics());
    assert_eq!(b.0.lines.len(), 1);
    assert_eq!(b.0.get_text(), "");
}

#[test]
fn default_buffer_has_no_lines() {
    let b = CosmicEditBuffer::default();
    assert_eq!(b.0.lines.len(), 0);
    assert_eq!(b.0.metrics, Metrics { font_size: 20, line_height: 20 });
    assert_eq!(BufferRefExtras::get_text(&b.0), "");
}

#[test]
fn get_text_spans_fills_gaps_with_default() {
    let line = StyledLine {
        text: "hello world".to_string(),
        attrs: TextAttrs::new(),
        spans: vec![Span { start: 2, end: 4, attrs: red() }, Span { start: 6, end: 11, attrs: red() }],
        align: None,
    };
    let b = CosmicEditBuffer::from_raw_buffer(Buffer { lines: vec![line], metrics: metrics(), redraw: false });
    assert!(b.0.redraw);
    let d = TextAttrs::new();
    let runs = b.get_text_spans(d);
    assert_eq!(
        runs,
        vec![vec![
            ("he".to_string(), d),
            ("ll".to_string(), red()),
            ("o ".to_string(), d),
            ("world".to_string(), red()),
        ]]
    );
}

#[test]
fn get_text_spans_line_without_spans_is_one_run() {
    let b = CosmicEditBuffer::new(metrics()).with_text("x\n", red());
    let d = TextAttrs::new();
    let runs = b.get_text_spans(d);
    assert_eq!(runs, vec![vec![("x".to_string(), d)], vec![("".to_string(), d)]]);
}

#[test]
fn rich_text_round_trips_through_spans() {
    let d = TextAttrs::new();
    let pieces = vec![
        ("plain ".to_string(), d),
        ("red\nstill red".to_string(), red()),
        (" tail".to_string(), d),
    ];
    let b = CosmicEditBuffer::new(metrics()).with_rich_text(&pieces, d);
    assert_eq!(b.0.get_text(), "plain red\nstill red tail");
    let runs = b.get_text_spans(d);
    assert_eq!(runs.len(), 2);
    assert_eq!(runs[0], vec![("plain ".to_string(), d), ("red".to_string(), red())]);
    assert_eq!(runs[1], vec![("still red".to_string(), red()), (" tail".to_string(), d)]);
    let joined: Vec<String> = runs.iter().map(|l| l.iter().map(|r| r.0.as_str()).collect::<String>()).collect();
    assert_eq!(joined.join("\n"), b.0.get_text());
}

#[test]
fn multibyte_text_spans_count_characters() {
    let d = TextAttrs::new();
    let pieces = vec![("ä".to_string(), d), ("öü".to_string(), red())];
    let b = CosmicEditBuffer::new(metrics()).with_rich_text(&pieces, d);
    assert_eq!(b.0.lines[0].spans, vec![Span { start: 1, end: 3, attrs: red() }]);
    assert_eq!(b.get_text_spans(d), vec![vec![("ä".to_string(), d), ("öü".to_string(), red())]]);
}

#[test]
fn take_redraw_clears_flag() {
    let mut b = CosmicEditBuffer::new(metrics());
    assert!(b.0.take_redraw());
    assert!(!b.0.take_redraw());
}

#[test]
fn layout_size_is_widest_line_and_summed_heights() {
    let runs = vec![
        LayoutRun { line_w: 30, line_height: 16 },
        LayoutRun { line_w: 50, line_height: 16 },
        LayoutRun { line_w: 10, line_height: 20 },
    ];
    assert_eq!(layout_width(&runs), 50);
    assert_eq!(layout_height(&runs), 52);
    assert_eq!(layout_width(&Vec::new()), 0);
    assert_eq!(layout_height(&Vec::new()), 0);
}

#[test]
fn alignment_applies_to_every_line() {
    let mut b = CosmicEditBuffer::new(metrics()).with_text("a\nb", TextAttrs::new());
    b.0.set_horizontal_alignment(None);
    assert!(b.0.lines.iter().all(|l| l.align.is_none()));
    b.0.set_horizontal_alignment(Some(HorizontalAlign::Center));
    assert!(b.0.lines.iter().all(|l| l.align == Some(HorizontalAlign::Center)));
    assert_eq!(b.0.get_text(), "a\nb");
}

#[test]
fn well_formedness_is_checked() {
    let good = StyledLine { text: "abc".to_string(), attrs: TextAttrs::new(), spans: vec![Span { start: 0, end: 2, attrs: red() }], align: None };
    assert!(good.is_wf());
    let past_end = StyledLine { text: "abc".to_string(), attrs: TextAttrs::new(), spans: vec![Span { start: 1, end: 4, attrs: red() }], align: None };
    assert!(!past_end.is_wf());
    let overlap = StyledLine {
        text: "abc".to_string(),
        attrs: TextAttrs::new(),
        spans: vec![Span { start: 0, end: 2, attrs: red() }, Span { start: 1, end: 3, attrs: red() }],
        align: None,
    };
    assert!(!overlap.is_wf());
    let newline = StyledLine { text: "a\nb".to_string(), attrs: TextAttrs::new(), spans: vec![], align: None };
    assert!(!newline.is_wf());
    let b = Buffer { lines: vec![good, newline], metrics: metrics(), redraw: true };
    assert!(!b.is_wf());
}

use vstd::prelude::*;

use crate::color::Rgba;

verus! {

/// The style of a run of text, as far as this library reads it.
#[derive(Clone, Copy, Debug, PartialEq, Eq, Structural)]
pub struct TextAttrs {
    /// Font color; `None` means the widget's default.
    pub color: Option<Rgba>,
    /// Font weight, 100 to 900 (400 is normal).
    pub weight: u16,
    pub italic: bool,
}

/// Font size and line height, in pixels.
#[derive(Clone, Copy, Debug, PartialEq, Eq)]
pub struct Metrics {
    pub font_size: u32,
    pub line_height: u32,
}

/// A styled range `[start, end)` of a line, counted in characters.
#[derive(Clone, Copy, Debug, PartialEq, Eq)]
pub struct Span {
    pub start: usize,
    pub end: usize,
    pub attrs: TextAttrs,
}

/// Spans lie inside a text of `len` characters, each ends where or before
/// the next starts.
pub open spec fn spans_wf(spans: Seq<Span>, len: int) -> bool {
    &&& forall|i: int| 0 <= i < spans.len() ==> #[trigger] spans[i].start <= spans[i].end <= len
    &&& forall|i: int| 0 < i < spans.len() ==> spans[i - 1].end <= #[trigger] spans[i].start
}

/// One line of text, without its line break, with its styled spans; text
/// outside every span has the line's default style `attrs`.
#[derive(Debug)]
pub struct StyledLine {
    pub text: String,
    pub attrs: TextAttrs,
    pub spans: Vec<Span>,
    /// Horizontal alignment; `None` leaves it to layout.
    pub align: Option<HorizontalAlign>,
}

/// Horizontal alignment of a line.
#[derive(Clone, Copy, Debug, PartialEq, Eq)]
pub enum HorizontalAlign {
    Left,
    Right,
    Center,
    Justified,
    End,
}

impl StyledLine {
    pub open spec fn wf(&self) -> bool {
        &&& spans_wf(self.spans@, self.text@.len() as int)
        &&& !self.text@.contains('\n')
    }
}

/// Lines joined with a newline between each two.
pub open spec fn join_lines(lines: Seq<Seq<char>>) -> Seq<char>
    decreases lines.len(),
{
    if lines.len() == 0 {
        Seq::empty()
    } else if lines.len() == 1 {
        lines[0]
    } else {
        join_lines(lines.drop_last()) + seq!['\n'] + lines.last()
    }
}

/// The texts of the lines.
pub open spec fn line_texts(lines: Seq<StyledLine>) -> Seq<Seq<char>> {
    lines.map_values(|l: StyledLine| l.text@)
}

/// Text split at each newline: the lines joined give it back, and no line
/// holds a newline.
pub open spec fn splits_into(text: Seq<char>, lines: Seq<Seq<char>>) -> bool {
    &&& join_lines(lines) == text
    &&& forall|i: int| 0 <= i < lines.len() ==> !(#[trigger] lines[i]).contains('\n')
}

proof fn lemma_join_push(lines: Seq<Seq<char>>, c: char)
    requires
        lines.len() > 0,
    ensures
        join_lines(lines.drop_last().push(lines.last() + seq![c])) == join_lines(lines) + seq![c],
    decreases lines.len(),
{
    let l2 = lines.drop_last().push(lines.last() + seq![c]);
    assert(l2.drop_last() =~= lines.drop_last());
    if lines.len() == 1 {
        assert(lines[0] == lines.last());
    } else {
        assert(join_lines(l2) == join_lines(lines.drop_last()) + seq!['\n'] + (lines.last() + seq![
            c,
        ]));
        assert(join_lines(lines) == join_lines(lines.drop_last()) + seq!['\n'] + lines.last());
        assert(join_lines(l2) =~= join_lines(lines) + seq![c]);
    }
}

proof fn lemma_join_new_line(lines: Seq<Seq<char>>)
    requires
        lines.len() > 0,
    ensures
        join_lines(lines.push(Seq::empty())) == join_lines(lines) + seq!['\n'],
{
    let l2 = lines.push(Seq::<char>::empty());
    assert(l2.drop_last() =~= lines);
    assert(join_lines(l2) =~= join_lines(lines) + seq!['\n']);
}


/// Splits `text` at its newlines into unstyled lines with default style `attrs`.
pub fn split_lines(text: &str, attrs: TextAttrs) -> (r: Vec<StyledLine>)
    ensures
        splits_into(text@, line_texts(r@)),
        r@.len() > 0,
        forall|i: int|
            0 <= i < r@.len() ==> (#[trigger] r@[i]).wf() && r@[i].spans@.len() == 0
                && r@[i].attrs == attrs,
{
    let n = text.unicode_len();
    let mut lines: Vec<StyledLine> = Vec::new();
    let mut start: usize = 0;
    let mut i: usize = 0;
    while i < n
        invariant
            n == text@.len(),
            start <= i <= n,
            join_lines(line_texts(lines@).push(text@.subrange(start as int, i as int)))
                == text@.take(i as int),
            forall|k: int|
                0 <= k < lines@.len() ==> (#[trigger] lines@[k]).wf() && lines@[k].spans@.len()
                    == 0 && lines@[k].attrs == attrs,
            !text@.subrange(start as int, i as int).contains('\n'),
        decreases n - i,
    {
        let c = text.get_char(i);
        let ghost before = line_texts(lines@).push(text@.subrange(start as int, i as int));
        if c == '\n' {
            let piece = text.substring_char(start, i);
            lines.push(StyledLine { text: piece.to_owned(), attrs, spans: Vec::new(), align: None });
            proof {
                assert(line_texts(lines@) =~= before);
                lemma_join_new_line(before);
                assert(text@.subrange((i + 1) as int, (i + 1) as int) =~= Seq::<char>::empty());
                assert(line_texts(lines@).push(Seq::empty()) =~= line_texts(lines@).push(
                    text@.subrange((i + 1) as int, (i + 1) as int),
                ));
                assert(text@.take((i + 1) as int) =~= text@.take(i as int) + seq!['\n']);
            }
            start = i + 1;
        } else {
            proof {
                assert(text@.subrange(start as int, (i + 1) as int) =~= text@.subrange(
                    start as int,
                    i as int,
                ) + seq![c]);
                lemma_join_push(before, c);
                assert(before.drop_last().push(before.last() + seq![c]) =~= line_texts(
                    lines@,
                ).push(text@.subrange(start as int, (i + 1) as int)));
                assert(text@.take((i + 1) as int) =~= text@.take(i as int) + seq![c]);
            }
        }
        i = i + 1;
    }
    let ghost prev = lines@;
    let piece = text.substring_char(start, n);
    lines.push(StyledLine { text: piece.to_owned(), attrs, spans: Vec::new(), align: None });
    proof {
        assert(line_texts(lines@) =~= line_texts(prev).push(text@.subrange(start as int, i as int)));
        assert(text@.take(n as int) =~= text@);
    }
    lines
}

/// Styled lines, the metrics to lay them out with, and a flag that says the
/// picture drawn from them is stale.
pub struct Buffer {
    pub lines: Vec<StyledLine>,
    pub metrics: Metrics,
    pub redraw: bool,
}

impl Buffer {
    /// Gives every line the alignment `align` where it is set; leaves the
    /// buffer as it is where it is `None`. Text, styles and spans are kept.
    pub fn set_horizontal_alignment(&mut self, align: Option<HorizontalAlign>)
        ensures
            align is None ==> *final(self) == *old(self),
            final(self).lines@.len() == old(self).lines@.len(),
            final(self).metrics == old(self).metrics,
            final(self).redraw == old(self).redraw,
            forall|i: int|
                0 <= i < final(self).lines@.len() ==> (#[trigger] final(self).lines@[i]).text@
                    == old(self).lines@[i].text@ && final(self).lines@[i].spans@
                    == old(self).lines@[i].spans@ && final(self).lines@[i].attrs
                    == old(self).lines@[i].attrs && (align is Some ==> final(self).lines@[i].align
                    == align),
    {
        if align.is_none() {
            return ;
        }
        let n = self.lines.len();
        let mut i: usize = 0;
        while i < n
            invariant
                n == self.lines@.len(),
                n == old(self).lines@.len(),
                i <= n,
                align is Some,
                self.metrics == old(self).metrics,
                self.redraw == old(self).redraw,
                forall|k: int|
                    0 <= k < n ==> (#[trigger] self.lines@[k]).text@ == old(self).lines@[k].text@
                        && self.lines@[k].spans@ == old(self).lines@[k].spans@
                        && self.lines@[k].attrs == old(self).lines@[k].attrs && (k < i
                        ==> self.lines@[k].align == align),
            decreases n - i,
        {
            let mut line = self.lines[i].copy();
            line.align = align;
            self.lines.set(i, line);
            i = i + 1;
        }
    }

    /// Reports whether a redraw is due and clears the flag.
    pub fn take_redraw(&mut self) -> (r: bool)
        ensures
            r == old(self).redraw,
            *final(self) == (Buffer { redraw: false, ..*old(self) }),
    {
        let r = self.redraw;
        self.redraw = false;
        r
    }

    pub open spec fn wf(&self) -> bool {
        forall|i: int| 0 <= i < self.lines@.len() ==> (#[trigger] self.lines@[i]).wf()
    }

    /// The whole text: the lines joined by newlines.
    pub open spec fn text(&self) -> Seq<char> {
        join_lines(line_texts(self.lines@))
    }

    /// Concatenates the lines with a newline between each two.
    pub fn get_text(&self) -> (r: String)
        ensures
            r@ == self.text(),
    {
        let mut text = String::new();
        let n = self.lines.len();
        let mut i: usize = 0;
        while i < n
            invariant
                n == self.lines@.len(),
                i <= n,
                text@ == join_lines(line_texts(self.lines@.take(i as int))),
            decreases n - i,
        {
            let ghost prev = text@;
            if i > 0 {
                text.append("\n");
            }
            text.append(self.lines[i].text.as_str());
            proof {
                reveal_strlit("\n");
                let t = line_texts(self.lines@.take(i + 1));
                assert(t.drop_last() =~= line_texts(self.lines@.take(i as int)));
                assert(t.last() == self.lines@[i as int].text@);
                if i == 0 {
                    assert(prev =~= Seq::<char>::empty());
                    assert(text@ =~= join_lines(t));
                } else {
                    assert(text@ =~= join_lines(t));
                }
            }
            i = i + 1;
        }
        assert(self.lines@.take(n as int) =~= self.lines@);
        text
    }
}

/// The buffer of a text widget.
pub struct CosmicEditBuffer(pub Buffer);

/// Reading the text of a buffer.
pub trait BufferRefExtras {
    fn get_text(&self) -> String;
}

impl BufferRefExtras for Buffer {
    fn get_text(&self) -> String {
        Buffer::get_text(self)
    }
}

impl Default for CosmicEditBuffer {
    /// A buffer with no lines, font size and line height 20, marked for redraw.
    fn default() -> (r: CosmicEditBuffer)
        ensures
            r.0.lines@.len() == 0,
            r.0.metrics == (Metrics { font_size: 20, line_height: 20 }),
            r.0.redraw,
    {
        CosmicEditBuffer(
            Buffer { lines: Vec::new(), metrics: Metrics { font_size: 20, line_height: 20 }, redraw: true },
        )
    }
}

/// Size of one laid-out line, in pixels.
#[derive(Clone, Copy, Debug, PartialEq, Eq)]
pub struct LayoutRun {
    pub line_w: u32,
    pub line_height: u32,
}

/// The widest line, zero where there is none.
pub open spec fn max_width(runs: Seq<LayoutRun>) -> nat
    decreases runs.len(),
{
    if runs.len() == 0 {
        0
    } else {
        let m = max_width(runs.drop_last());
        if runs.last().line_w > m {
            runs.last().line_w as nat
        } else {
            m
        }
    }
}

/// The line heights added up.
pub open spec fn total_height(runs: Seq<LayoutRun>) -> nat
    decreases runs.len(),
{
    if runs.len() == 0 {
        0
    } else {
        total_height(runs.drop_last()) + runs.last().line_height as nat
    }
}

proof fn lemma_total_height_bound(runs: Seq<LayoutRun>)
    ensures
        total_height(runs) <= runs.len() * u32::MAX,
    decreases runs.len(),
{
    if runs.len() > 0 {
        lemma_total_height_bound(runs.drop_last());
        assert(total_height(runs) <= (runs.len() - 1) * u32::MAX + u32::MAX);
        assert((runs.len() - 1) * u32::MAX + u32::MAX == runs.len() * u32::MAX) by (nonlinear_arith);
    }
}

/// Width of a layout: its widest line.
pub fn layout_width(runs: &Vec<LayoutRun>) -> (r: u32)
    ensures
        r == max_width(runs@),
{
    let mut m: u32 = 0;
    let mut i: usize = 0;
    while i < runs.len()
        invariant
            i <= runs@.len(),
            m == max_width(runs@.take(i as int)),
        decreases runs@.len() - i,
    {
        assert(runs@.take(i + 1).drop_last() =~= runs@.take(i as int));
        if runs[i].line_w > m {
            m = runs[i].line_w;
        }
        i = i + 1;
    }
    assert(runs@.take(i as int) =~= runs@);
    m
}

/// Height of a layout: its line heights added up.
pub fn layout_height(runs: &Vec<LayoutRun>) -> (r: u64)
    requires
        runs@.len() <= u32::MAX,
    ensures
        r == total_height(runs@),
{
    let mut sum: u64 = 0;
    let mut i: usize = 0;
    while i < runs.len()
        invariant
            i <= runs@.len(),
            runs@.len() <= u32::MAX,
            sum == total_height(runs@.take(i as int)),
        decreases runs@.len() - i,
    {
        assert(runs@.take(i + 1).drop_last() =~= runs@.take(i as int));
        proof {
            lemma_total_height_bound(runs@.take(i + 1));
            assert((i + 1) * u32::MAX <= u32::MAX * u32::MAX) by (nonlinear_arith)
                requires
                    i + 1 <= u32::MAX,
            ;
        }
        sum = sum + runs[i].line_height as u64;
        i = i + 1;
    }
    assert(runs@.take(i as int) =~= runs@);
    sum
}

/// A run of text and its style.
pub type Run = (Seq<char>, TextAttrs);

/// The runs of a line from span `k` on, where `pos` is where the previous span
/// ended: a gap before each span in the default style, the span itself, and
/// after the last span the rest of the line in the default style.
pub open spec fn runs_from(
    text: Seq<char>,
    spans: Seq<Span>,
    k: int,
    pos: int,
    default: TextAttrs,
) -> Seq<Run>
    decreases spans.len() - k,
{
    if k >= spans.len() || k < 0 {
        if pos < text.len() {
            seq![(text.subrange(pos, text.len() as int), default)]
        } else {
            Seq::empty()
        }
    } else {
        let sp = spans[k];
        let gap: Seq<Run> = if sp.start > pos {
            seq![(text.subrange(pos, sp.start as int), default)]
        } else {
            Seq::empty()
        };
        gap + seq![(text.subrange(sp.start as int, sp.end as int), sp.attrs)] + runs_from(
            text,
            spans,
            k + 1,
            sp.end as int,
            default,
        )
    }
}

/// The runs of a line: the whole line in the default style where it has no
/// spans, else `runs_from` its first span.
pub open spec fn line_runs(line: StyledLine, default: TextAttrs) -> Seq<Run> {
    if line.spans@.len() == 0 {
        seq![(line.text@, default)]
    } else {
        runs_from(line.text@, line.spans@, 0, 0, default)
    }
}

/// The texts of the runs, concatenated.
pub open spec fn flatten_runs(runs: Seq<Run>) -> Seq<char>
    decreases runs.len(),
{
    if runs.len() == 0 {
        Seq::empty()
    } else {
        runs[0].0 + flatten_runs(runs.drop_first())
    }
}

/// The mathematical value of an executable list of runs.
pub open spec fn runs_view(v: Seq<(String, TextAttrs)>) -> Seq<Run> {
    v.map_values(|p: (String, TextAttrs)| (p.0@, p.1))
}

proof fn lemma_flatten_concat(a: Seq<Run>, b: Seq<Run>)
    ensures
        flatten_runs(a + b) == flatten_runs(a) + flatten_runs(b),
    decreases a.len(),
{
    if a.len() == 0 {
        assert(a + b =~= b);
        assert(flatten_runs(a) + flatten_runs(b) =~= flatten_runs(b));
    } else {
        assert((a + b).drop_first() =~= a.drop_first() + b);
        lemma_flatten_concat(a.drop_first(), b);
        assert(flatten_runs(a + b) =~= flatten_runs(a) + flatten_runs(b));
    }
}

proof fn lemma_flatten_single(r: Run)
    ensures
        flatten_runs(seq![r]) == r.0,
{
    assert(seq![r].drop_first() =~= Seq::<Run>::empty());
    assert(flatten_runs(seq![r].drop_first()) =~= Seq::<char>::empty());
    assert(flatten_runs(seq![r]) =~= r.0);
}

/// From span `k` on, the runs hold exactly the rest of the line.
proof fn lemma_runs_from_text(
    text: Seq<char>,
    spans: Seq<Span>,
    k: int,
    pos: int,
    default: TextAttrs,
)
    requires
        spans_wf(spans, text.len() as int),
        0 <= k <= spans.len(),
        0 <= pos <= text.len(),
        k < spans.len() ==> pos <= spans[k].start,
    ensures
        flatten_runs(runs_from(text, spans, k, pos, default)) == text.subrange(
            pos,
            text.len() as int,
        ),
    decreases spans.len() - k,
{
    if k >= spans.len() {
        if pos < text.len() {
            lemma_flatten_single((text.subrange(pos, text.len() as int), default));
        } else {
            assert(text.subrange(pos, text.len() as int) =~= Seq::<char>::empty());
        }
    } else {
        let sp = spans[k];
        let gap: Seq<Run> = if sp.start > pos {
            seq![(text.subrange(pos, sp.start as int), default)]
        } else {
            Seq::empty()
        };
        let mid = seq![(text.subrange(sp.start as int, sp.end as int), sp.attrs)];
        let rest = runs_from(text, spans, k + 1, sp.end as int, default);
        lemma_runs_from_text(text, spans, k + 1, sp.end as int, default);
        lemma_flatten_concat(gap + mid, rest);
        lemma_flatten_concat(gap, mid);
        lemma_flatten_single(mid[0]);
        if sp.start > pos {
            lemma_flatten_single(gap[0]);
        } else {
            assert(flatten_runs(gap) =~= Seq::<char>::empty());
        }
        assert(text.subrange(pos, text.len() as int) =~= text.subrange(pos, sp.start as int)
            + text.subrange(sp.start as int, sp.end as int) + text.subrange(
            sp.end as int,
            text.len() as int,
        ));
    }
}

/// The runs of a well-formed line hold its text, nothing gained, lost or moved.
pub proof fn lemma_line_runs_text(line: StyledLine, default: TextAttrs)
    requires
        line.wf(),
    ensures
        flatten_runs(line_runs(line, default)) == line.text@,
{
    if line.spans@.len() == 0 {
        lemma_flatten_single((line.text@, default));
    } else {
        lemma_runs_from_text(line.text@, line.spans@, 0, 0, default);
        assert(line.text@.subrange(0, line.text@.len() as int) =~= line.text@);
    }
}

impl CosmicEditBuffer {
    /// Splits each line into runs of one style, filling the gaps between
    /// spans with `default_attrs`.
    pub fn get_text_spans(&self, default_attrs: TextAttrs) -> (r: Vec<Vec<(String, TextAttrs)>>)
        requires
            self.0.wf(),
        ensures
            r@.len() == self.0.lines@.len(),
            forall|i: int|
                0 <= i < r@.len() ==> runs_view(#[trigger] r@[i]@) == line_runs(
                    self.0.lines@[i],
                    default_attrs,
                ),
    {
        let mut spans: Vec<Vec<(String, TextAttrs)>> = Vec::new();
        let n = self.0.lines.len();
        let mut i: usize = 0;
        while i < n
            invariant
                n == self.0.lines@.len(),
                i <= n,
                self.0.wf(),
                spans@.len() == i,
                forall|j: int|
                    0 <= j < i ==> runs_view(#[trigger] spans@[j]@) == line_runs(
                        self.0.lines@[j],
                        default_attrs,
                    ),
            decreases n - i,
        {
            let line = &self.0.lines[i];
            let line_spans = line_runs_exec(line, default_attrs);
            spans.push(line_spans);
            i = i + 1;
        }
        spans
    }
}

/// The runs of one line, as `line_runs` states.
fn line_runs_exec(line: &StyledLine, default_attrs: TextAttrs) -> (r: Vec<(String, TextAttrs)>)
    requires
        line.wf(),
    ensures
        runs_view(r@) == line_runs(*line, default_attrs),
{
    let mut line_spans: Vec<(String, TextAttrs)> = Vec::new();
    let text = line.text.as_str();
    let len = text.unicode_len();
    let m = line.spans.len();
    if m == 0 {
        line_spans.push((text.to_owned(), default_attrs));
        assert(runs_view(line_spans@) =~= line_runs(*line, default_attrs));
        return line_spans;
    }
    let mut current_pos: usize = 0;
    let mut k: usize = 0;
    while k < m
        invariant
            m == line.spans@.len(),
            len == line.text@.len(),
            text@ == line.text@,
            line.wf(),
            k <= m,
            current_pos <= len,
            k < m ==> current_pos <= line.spans@[k as int].start,
            runs_view(line_spans@) + runs_from(
                line.text@,
                line.spans@,
                k as int,
                current_pos as int,
                default_attrs,
            ) == runs_from(line.text@, line.spans@, 0, 0, default_attrs),
        decreases m - k,
    {
        let span = line.spans[k];
        let ghost before = runs_view(line_spans@);
        if span.start > current_pos {
            let gap = text.substring_char(current_pos, span.start);
            line_spans.push((gap.to_owned(), default_attrs));
        }
        let piece = text.substring_char(span.start, span.end);
        line_spans.push((piece.to_owned(), span.attrs));
        proof {
            let gap: Seq<Run> = if span.start > current_pos {
                seq![(line.text@.subrange(current_pos as int, span.start as int), default_attrs)]
            } else {
                Seq::empty()
            };
            let mid = seq![(line.text@.subrange(span.start as int, span.end as int), span.attrs)];
            assert(runs_view(line_spans@) =~= before + gap + mid);
            let rest = runs_from(line.text@, line.spans@, k + 1, span.end as int, default_attrs);
            assert(runs_from(line.text@, line.spans@, k as int, current_pos as int, default_attrs)
                == gap + mid + rest);
            assert(before + (gap + mid + rest) =~= before + gap + mid + rest);
        }
        current_pos = span.end;
        k = k + 1;
    }
    if current_pos < len {
        let ghost before = runs_view(line_spans@);
        let rest = text.substring_char(current_pos, len);
        line_spans.push((rest.to_owned(), default_attrs));
        assert(runs_view(line_spans@) =~= before + runs_from(
            line.text@,
            line.spans@,
            k as int,
            current_pos as int,
            default_attrs,
        ));
    } else {
        assert(runs_view(line_spans@) =~= runs_view(line_spans@) + runs_from(
            line.text@,
            line.spans@,
            k as int,
            current_pos as int,
            default_attrs,
        ));
    }
    line_spans
}

/// Reassembling the runs of every line, and joining the lines with newlines,
/// gives back the buffer's text exactly.
pub proof fn lemma_spans_round_trip(b: CosmicEditBuffer, default_attrs: TextAttrs)
    requires
        b.0.wf(),
    ensures
        join_lines(
            Seq::new(
                b.0.lines@.len(),
                |i: int| flatten_runs(line_runs(b.0.lines@[i], default_attrs)),
            ),
        ) == b.0.text(),
{
    let runs = Seq::new(
        b.0.lines@.len(),
        |i: int| flatten_runs(line_runs(b.0.lines@[i], default_attrs)),
    );
    assert forall|i: int| 0 <= i < b.0.lines@.len() implies runs[i] == line_texts(b.0.lines@)[i] by {
        lemma_line_runs_text(b.0.lines@[i], default_attrs);
    }
    assert(runs =~= line_texts(b.0.lines@));
}

/// Every span is non-empty and in a style other than `default`.
pub open spec fn spans_styled(spans: Seq<Span>, default: TextAttrs) -> bool {
    forall|m: int|
        0 <= m < spans.len() ==> (#[trigger] spans[m]).attrs != default && spans[m].start
            < spans[m].end
}

/// The texts of rich-text pieces, concatenated.
pub open spec fn concat_pieces(pieces: Seq<(String, TextAttrs)>) -> Seq<char>
    decreases pieces.len(),
{
    if pieces.len() == 0 {
        Seq::empty()
    } else {
        concat_pieces(pieces.drop_last()) + pieces.last().0@
    }
}

pub(crate) proof fn lemma_join_append(lines: Seq<Seq<char>>, s: Seq<char>)
    requires
        lines.len() > 0,
    ensures
        join_lines(lines.drop_last().push(lines.last() + s)) == join_lines(lines) + s,
{
    let l2 = lines.drop_last().push(lines.last() + s);
    assert(l2.drop_last() =~= lines.drop_last());
    if lines.len() == 1 {
        assert(join_lines(l2) =~= join_lines(lines) + s);
    } else {
        assert(join_lines(l2) =~= join_lines(lines) + s);
    }
}

pub(crate) proof fn lemma_join_push_line(lines: Seq<Seq<char>>, s: Seq<char>)
    requires
        lines.len() > 0,
    ensures
        join_lines(lines.push(s)) == join_lines(lines) + seq!['\n'] + s,
{
    assert(lines.push(s).drop_last() =~= lines);
}

impl TextAttrs {
    /// Default color, normal weight, upright.
    pub fn new() -> (r: TextAttrs)
        ensures
            r == (TextAttrs { color: None, weight: 400, italic: false }),
    {
        TextAttrs { color: None, weight: 400, italic: false }
    }
}

impl StyledLine {
    /// A deep copy.
    pub fn copy(&self) -> (r: StyledLine)
        ensures
            r.text@ == self.text@,
            r.attrs == self.attrs,
            r.spans@ == self.spans@,
            r.align == self.align,
    {
        let mut spans: Vec<Span> = Vec::new();
        let mut i: usize = 0;
        while i < self.spans.len()
            invariant
                i <= self.spans@.len(),
                spans@ == self.spans@.take(i as int),
            decreases self.spans@.len() - i,
        {
            spans.push(self.spans[i]);
            i = i + 1;
            assert(spans@ =~= self.spans@.take(i as int));
        }
        assert(self.spans@.take(i as int) =~= self.spans@);
        StyledLine { text: self.text.as_str().to_owned(), attrs: self.attrs, spans, align: self.align }
    }
}

impl Buffer {
    /// A deep copy, with the same redraw flag.
    pub fn copy(&self) -> (r: Buffer)
        ensures
            line_texts(r.lines@) == line_texts(self.lines@),
            r.lines@.len() == self.lines@.len(),
            forall|i: int|
                0 <= i < r.lines@.len() ==> (#[trigger] r.lines@[i]).spans@
                    == self.lines@[i].spans@ && r.lines@[i].attrs == self.lines@[i].attrs
                    && r.lines@[i].text@ == self.lines@[i].text@,
            r.metrics == self.metrics,
            r.redraw == self.redraw,
            self.wf() ==> r.wf(),
    {
        let mut lines: Vec<StyledLine> = Vec::new();
        let mut i: usize = 0;
        while i < self.lines.len()
            invariant
                i <= self.lines@.len(),
                lines@.len() == i,
                forall|j: int|
                    0 <= j < i ==> (#[trigger] lines@[j]).spans@ == self.lines@[j].spans@
                        && lines@[j].attrs == self.lines@[j].attrs && lines@[j].text@
                        == self.lines@[j].text@,
            decreases self.lines@.len() - i,
        {
            lines.push(self.lines[i].copy());
            i = i + 1;
        }
        let r = Buffer { lines, metrics: self.metrics, redraw: self.redraw };
        assert(line_texts(r.lines@) =~= line_texts(self.lines@));
        r
    }
}

impl CosmicEditBuffer {
    /// A buffer with one empty line, marked for redraw.
    pub fn new(metrics: Metrics) -> (r: CosmicEditBuffer)
        ensures
            r.0.wf(),
            r.0.text() == Seq::<char>::empty(),
            r.0.lines@.len() == 1,
            r.0.metrics == metrics,
            r.0.redraw,
    {
        let lines = split_lines("", TextAttrs::new());
        proof {
            reveal_strlit("");
            assert(join_lines(line_texts(lines@)) == Seq::<char>::empty());
            if lines@.len() > 1 {
                assert(join_lines(line_texts(lines@)).len() >= 1);
            }
        }
        CosmicEditBuffer(Buffer { lines, metrics, redraw: true })
    }

    /// Wraps a raw buffer and marks it for redraw.
    pub fn from_raw_buffer(buffer: Buffer) -> (r: CosmicEditBuffer)
        ensures
            r.0 == (Buffer { redraw: true, ..buffer }),
    {
        let mut buffer = buffer;
        buffer.redraw = true;
        CosmicEditBuffer(buffer)
    }

    /// Replaces the text with `text`, one line per newline, in style `attrs`.
    pub fn set_text(&mut self, text: &str, attrs: TextAttrs)
        ensures
            final(self).0.wf(),
            final(self).0.text() == text@,
            splits_into(text@, line_texts(final(self).0.lines@)),
            forall|i: int|
                0 <= i < final(self).0.lines@.len() ==> (#[trigger] final(self).0.lines@[i]).spans@.len()
                    == 0 && final(self).0.lines@[i].attrs == attrs,
            final(self).0.metrics == old(self).0.metrics,
            final(self).0.redraw,
    {
        self.0.lines = split_lines(text, attrs);
        self.0.redraw = true;
    }

    /// `set_text` on a new buffer.
    pub fn with_text(self, text: &str, attrs: TextAttrs) -> (r: CosmicEditBuffer)
        ensures
            r.0.wf(),
            r.0.text() == text@,
            splits_into(text@, line_texts(r.0.lines@)),
            forall|i: int|
                0 <= i < r.0.lines@.len() ==> (#[trigger] r.0.lines@[i]).spans@.len() == 0
                    && r.0.lines@[i].attrs == attrs,
            r.0.metrics == self.0.metrics,
            r.0.redraw,
    {
        let mut b = self;
        b.set_text(text, attrs);
        b
    }

    /// Replaces the text with the concatenated pieces, split at newlines. A
    /// piece whose style differs from `default_attrs` becomes a span on each
    /// line it touches.
    pub fn set_rich_text(&mut self, pieces: &Vec<(String, TextAttrs)>, default_attrs: TextAttrs)
        ensures
            final(self).0.wf(),
            final(self).0.text() == concat_pieces(pieces@),
            forall|i: int|
                0 <= i < final(self).0.lines@.len() ==> (#[trigger] final(self).0.lines@[i]).attrs
                    == default_attrs && spans_styled(final(self).0.lines@[i].spans@, default_attrs),
            final(self).0.metrics == old(self).0.metrics,
            final(self).0.redraw,
    {
        let mut lines: Vec<StyledLine> = Vec::new();
        let mut cur = String::new();
        let mut cur_spans: Vec<Span> = Vec::new();
        let mut cur_len: usize = 0;
        let mut p: usize = 0;
        proof {
            assert(line_texts(lines@).push(cur@) =~= seq![Seq::<char>::empty()]);
        }
        while p < pieces.len()
            invariant
                p <= pieces@.len(),
                cur_len == cur@.len(),
                !cur@.contains('\n'),
                spans_wf(cur_spans@, cur_len as int),
                spans_styled(cur_spans@, default_attrs),
                forall|k: int|
                    0 <= k < lines@.len() ==> (#[trigger] lines@[k]).wf() && lines@[k].attrs
                        == default_attrs && spans_styled(lines@[k].spans@, default_attrs),
                join_lines(line_texts(lines@).push(cur@)) == concat_pieces(pieces@.take(p as int)),
            decreases pieces@.len() - p,
        {
            let piece = &pieces[p];
            let attrs = piece.1;
            let segs = split_lines(piece.0.as_str(), attrs);
            let ghost prefix = concat_pieces(pieces@.take(p as int));
            let mut j: usize = 0;
            while j < segs.len()
                invariant
                    p < pieces@.len(),
                    *piece == pieces@[p as int],
                    prefix == concat_pieces(pieces@.take(p as int)),
                    splits_into(piece.0@, line_texts(segs@)),
                    segs@.len() > 0,
                    j <= segs@.len(),
                    cur_len == cur@.len(),
                    !cur@.contains('\n'),
                    spans_wf(cur_spans@, cur_len as int),
                    spans_styled(cur_spans@, default_attrs),
                    forall|k: int|
                        0 <= k < lines@.len() ==> (#[trigger] lines@[k]).wf() && lines@[k].attrs
                            == default_attrs && spans_styled(lines@[k].spans@, default_attrs),
                    j == 0 ==> join_lines(line_texts(lines@).push(cur@)) == prefix,
                    j > 0 ==> join_lines(line_texts(lines@).push(cur@)) == prefix + join_lines(
                        line_texts(segs@).take(j as int),
                    ),
                decreases segs@.len() - j,
            {
                let ghost before = line_texts(lines@).push(cur@);
                let ghost seg = line_texts(segs@)[j as int];
                assert(!seg.contains('\n'));
                if j > 0 {
                    let done = StyledLine { text: cur, attrs: default_attrs, spans: cur_spans, align: None };
                    lines.push(done);
                    cur = String::new();
                    cur_spans = Vec::new();
                    cur_len = 0;
                    proof {
                        assert(line_texts(lines@) =~= before);
                        assert(line_texts(lines@).push(cur@) =~= before.push(Seq::empty()));
                        lemma_join_push_line(before, Seq::empty());
                    }
                }
                let ghost mid = line_texts(lines@).push(cur@);
                let ghost old_cur = cur@;
                let start = cur_len;
                cur.append(segs[j].text.as_str());
                cur_len = cur.as_str().unicode_len();
                assert(cur@ =~= old_cur + seg);
                assert(spans_wf(cur_spans@, cur_len as int));
                if start < cur_len && attrs != default_attrs {
                    let ghost sp0 = cur_spans@;
                    cur_spans.push(Span { start, end: cur_len, attrs });
                    proof {
                        assert forall|i: int| 0 < i < cur_spans@.len() implies cur_spans@[i
                            - 1].end <= #[trigger] cur_spans@[i].start by {
                            if i < sp0.len() {
                                assert(cur_spans@[i - 1] == sp0[i - 1]);
                                assert(cur_spans@[i] == sp0[i]);
                            } else {
                                assert(sp0[i - 1].start <= sp0[i - 1].end <= start);
                            }
                        }
                        assert forall|m: int| 0 <= m < cur_spans@.len() implies (
                        #[trigger] cur_spans@[m]).attrs != default_attrs && cur_spans@[m].start
                            < cur_spans@[m].end by {
                            if m < sp0.len() {
                                assert(cur_spans@[m] == sp0[m]);
                            }
                        }
                    }
                }
                proof {
                    assert(line_texts(lines@).push(cur@) =~= mid.drop_last().push(mid.last() + seg));
                    lemma_join_append(mid, seg);
                    assert(!cur@.contains('\n')) by {
                        if cur@.contains('\n') {
                            let x = choose|x: int| 0 <= x < cur@.len() && cur@[x] == '\n';
                            if x < old_cur.len() {
                                assert(old_cur[x] == '\n');
                            } else {
                                assert(seg[x - old_cur.len()] == '\n');
                            }
                        }
                    }
                    let segs_t = line_texts(segs@);
                    if j > 0 {
                        assert(segs_t.take(j + 1).drop_last() =~= segs_t.take(j as int));
                        assert(join_lines(segs_t.take(j + 1)) == join_lines(segs_t.take(j as int))
                            + seq!['\n'] + seg);
                        assert(join_lines(line_texts(lines@).push(cur@)) =~= prefix + join_lines(
                            segs_t.take(j + 1),
                        ));
                    } else {
                        assert(join_lines(segs_t.take(1)) == seg);
                        assert(join_lines(line_texts(lines@).push(cur@)) =~= prefix + join_lines(
                            segs_t.take(1),
                        ));
                    }
                }
                j = j + 1;
            }
            proof {
                assert(line_texts(segs@).take(segs@.len() as int) =~= line_texts(segs@));
                assert(pieces@.take(p + 1).drop_last() =~= pieces@.take(p as int));
            }
            p = p + 1;
        }
        let ghost prev = line_texts(lines@);
        lines.push(StyledLine { text: cur, attrs: default_attrs, spans: cur_spans, align: None });
        assert(line_texts(lines@) =~= prev.push(cur@));
        assert(pieces@.take(p as int) =~= pieces@);
        self.0.lines = lines;
        self.0.redraw = true;
    }

    /// `set_rich_text` on a new buffer.
    pub fn with_rich_text(self, pieces: &Vec<(String, TextAttrs)>, default_attrs: TextAttrs) -> (r:
        CosmicEditBuffer)
        ensures
            r.0.wf(),
            r.0.text() == concat_pieces(pieces@),
            forall|i: int|
                0 <= i < r.0.lines@.len() ==> (#[trigger] r.0.lines@[i]).attrs == default_attrs
                    && spans_styled(r.0.lines@[i].spans@, default_attrs),
            r.0.metrics == self.0.metrics,
            r.0.redraw,
    {
        let mut b = self;
        b.set_rich_text(pieces, default_attrs);
        b
    }
}

/// Joining two non-empty lists of lines puts one newline between them.
pub proof fn lemma_join_concat(a: Seq<Seq<char>>, b: Seq<Seq<char>>)
    requires
        a.len() > 0,
        b.len() > 0,
    ensures
        join_lines(a + b) == join_lines(a) + seq!['\n'] + join_lines(b),
    decreases b.len(),
{
    if b.len() == 1 {
        assert((a + b).drop_last() =~= a);
        assert(join_lines(b) == b[0]);
    } else {
        assert((a + b).drop_last() =~= a + b.drop_last());
        lemma_join_concat(a, b.drop_last());
        assert(join_lines(a + b) =~= join_lines(a) + seq!['\n'] + join_lines(b));
    }
}

/// Text before a block of lines: the lines before it and a newline, if any.
pub open spec fn join_before(p: Seq<Seq<char>>) -> Seq<char> {
    if p.len() == 0 {
        Seq::empty()
    } else {
        join_lines(p) + seq!['\n']
    }
}

/// Text after a block of lines: a newline and the lines after it, if any.
pub open spec fn join_after(q: Seq<Seq<char>>) -> Seq<char> {
    if q.len() == 0 {
        Seq::empty()
    } else {
        seq!['\n'] + join_lines(q)
    }
}

pub proof fn lemma_join_around(p: Seq<Seq<char>>, x: Seq<Seq<char>>, q: Seq<Seq<char>>)
    requires
        x.len() > 0,
    ensures
        join_lines(p + x + q) == join_before(p) + join_lines(x) + join_after(q),
{
    if p.len() > 0 {
        lemma_join_concat(p, x);
    } else {
        assert(p + x =~= x);
    }
    if q.len() > 0 {
        lemma_join_concat(p + x, q);
    } else {
        assert(p + x + q =~= p + x);
    }
    assert(join_lines(p + x + q) =~= join_before(p) + join_lines(x) + join_after(q));
}

/// Any two spans are in order, not only neighbours.
pub proof fn lemma_spans_ordered(spans: Seq<Span>, len: int, a: int, b: int)
    requires
        spans_wf(spans, len),
        0 <= a < b < spans.len(),
    ensures
        spans[a].end <= spans[b].start,
    decreases b - a,
{
    if b > a + 1 {
        lemma_spans_ordered(spans, len, a, b - 1);
        assert(spans[b - 1].start <= spans[b - 1].end);
    }
}

/// The spans of a line cut to its first `idx` characters.
pub(crate) fn spans_before(spans: &Vec<Span>, len: usize, idx: usize) -> (r: Vec<Span>)
    requires
        spans_wf(spans@, len as int),
        idx <= len as int,
    ensures
        spans_wf(r@, idx as int),
{
    let mut r: Vec<Span> = Vec::new();
    let mut i: usize = 0;
    while i < spans.len()
        invariant
            spans_wf(spans@, len as int),
            i <= spans@.len(),
            spans_wf(r@, idx as int),
            r@.len() > 0 ==> forall|j: int|
                i <= j < spans@.len() ==> r@.last().end <= (#[trigger] spans@[j]).start,
        decreases spans@.len() - i,
    {
        let sp = spans[i];
        assert(sp.start <= sp.end <= len as int);
        if sp.start < idx {
            let end = if sp.end < idx {
                sp.end
            } else {
                idx
            };
            let ghost r0 = r@;
            r.push(Span { start: sp.start, end, attrs: sp.attrs });
            proof {
                assert forall|j: int| 0 < j < r@.len() implies r@[j - 1].end <= #[trigger] r@[j].start by {
                    if j < r0.len() {
                        assert(r@[j - 1] == r0[j - 1] && r@[j] == r0[j]);
                    }
                }
                assert forall|j: int| 0 <= j < r@.len() implies #[trigger] r@[j].start <= r@[j].end
                    <= idx by {
                    if j < r0.len() {
                        assert(r@[j] == r0[j]);
                    }
                }
                assert forall|j: int| i + 1 <= j < spans@.len() implies r@.last().end <= (
                #[trigger] spans@[j]).start by {
                    lemma_spans_ordered(spans@, len as int, i as int, j);
                }
            }
        }
        i = i + 1;
    }
    r
}

/// The spans of a line from character `idx` on, moved to start at `offset`.
pub(crate) fn spans_after(spans: &Vec<Span>, len: usize, idx: usize, offset: usize) -> (r: Vec<Span>)
    requires
        spans_wf(spans@, len as int),
        idx <= len,
        offset + (len - idx) <= usize::MAX,
    ensures
        spans_wf(r@, offset + (len - idx)),
        forall|j: int| 0 <= j < r@.len() ==> offset <= (#[trigger] r@[j]).start,
{
    let mut r: Vec<Span> = Vec::new();
    let mut i: usize = 0;
    while i < spans.len()
        invariant
            spans_wf(spans@, len as int),
            idx <= len,
            offset + (len - idx) <= usize::MAX,
            i <= spans@.len(),
            spans_wf(r@, offset + (len - idx)),
            forall|j: int| 0 <= j < r@.len() ==> offset <= (#[trigger] r@[j]).start,
            r@.len() > 0 ==> r@.last().end > offset,
            r@.len() > 0 ==> forall|j: int|
                i <= j < spans@.len() ==> r@.last().end + idx <= (#[trigger] spans@[j]).start
                    + offset,
        decreases spans@.len() - i,
    {
        let sp = spans[i];
        assert(sp.start <= sp.end <= len);
        if sp.end > idx {
            let start = if sp.start > idx {
                sp.start - idx + offset
            } else {
                offset
            };
            let end = sp.end - idx + offset;
            let ghost r0 = r@;
            r.push(Span { start, end, attrs: sp.attrs });
            proof {
                assert forall|j: int| 0 < j < r@.len() implies r@[j - 1].end <= #[trigger] r@[j].start by {
                    if j < r0.len() {
                        assert(r@[j - 1] == r0[j - 1] && r@[j] == r0[j]);
                    }
                }
                assert forall|j: int| 0 <= j < r@.len() implies #[trigger] r@[j].start <= r@[j].end
                    <= offset + (len - idx) && offset <= r@[j].start by {
                    if j < r0.len() {
                        assert(r@[j] == r0[j]);
                    }
                }
                assert forall|j: int| i + 1 <= j < spans@.len() implies r@.last().end + idx <= (
                #[trigger] spans@[j]).start + offset by {
                    lemma_spans_ordered(spans@, len as int, i as int, j);
                }
            }
        }
        i = i + 1;
    }
    r
}

} // verus!

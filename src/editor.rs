use vstd::prelude::*;

use crate::buffer::{
    Buffer, CosmicEditBuffer, Span, StyledLine, TextAttrs, join_after, join_before, join_lines, lemma_join_append,
    lemma_join_around, lemma_join_push_line, line_texts, spans_after, spans_before, spans_wf,
    split_lines, splits_into,
};

use vstd::std_specs::iter::IteratorSpec;

verus! {

/// Largest text a widget accepts; zero in a field means no limit there.
#[derive(Clone, Copy, Debug, PartialEq, Eq)]
pub struct EditLimits {
    pub max_chars: usize,
    pub max_lines: usize,
}

/// Number of times `c` occurs in `t`.
pub open spec fn count_char(t: Seq<char>, c: char) -> nat
    decreases t.len(),
{
    if t.len() == 0 {
        0
    } else {
        count_char(t.drop_last(), c) + if t.last() == c {
            1nat
        } else {
            0nat
        }
    }
}

/// Lines of a text: one more than its newlines.
pub open spec fn line_count(t: Seq<char>) -> nat {
    count_char(t, '\n') + 1
}

pub open spec fn within_limits(t: Seq<char>, limits: EditLimits) -> bool {
    &&& (limits.max_chars == 0 || t.len() <= limits.max_chars)
    &&& (limits.max_lines == 0 || line_count(t) <= limits.max_lines)
}

/// Tests `within_limits` on a whole text.
pub fn fits_limits(text: &str, limits: &EditLimits) -> (r: bool)
    ensures
        r == within_limits(text@, *limits),
{
    let n = text.unicode_len();
    let mut newlines: usize = 0;
    let mut i: usize = 0;
    while i < n
        invariant
            n == text@.len(),
            i <= n,
            newlines == count_char(text@.take(i as int), '\n'),
            newlines <= i,
        decreases n - i,
    {
        let c = text.get_char(i);
        assert(text@.take(i + 1).drop_last() =~= text@.take(i as int));
        if c == '\n' {
            newlines = newlines + 1;
        }
        i = i + 1;
    }
    assert(text@.take(n as int) =~= text@);
    let chars_ok = limits.max_chars == 0 || n <= limits.max_chars;
    let lines_ok = limits.max_lines == 0 || newlines < limits.max_lines;
    chars_ok && lines_ok
}

/// Index in the whole text of the first character of line `line`.
pub open spec fn line_start(texts: Seq<Seq<char>>, line: int) -> int {
    if line == 0 {
        0
    } else {
        join_lines(texts.take(line)).len() + 1int
    }
}

/// A line ends inside the text.
proof fn lemma_line_end_in_text(texts: Seq<Seq<char>>, line: int)
    requires
        0 <= line < texts.len(),
    ensures
        line_start(texts, line) + texts[line].len() <= join_lines(texts).len(),
    decreases texts.len() - line,
{
    lemma_line_start_next(texts, line);
    if line + 1 < texts.len() {
        lemma_line_end_in_text(texts, line + 1);
        lemma_line_start_next(texts, line + 1);
    } else {
        assert(texts.take(line + 1) =~= texts);
    }
}

proof fn lemma_line_start_next(texts: Seq<Seq<char>>, line: int)
    requires
        0 <= line < texts.len(),
    ensures
        join_lines(texts.take(line + 1)).len() == line_start(texts, line) + texts[line].len(),
{
    let t = texts.take(line + 1);
    assert(t.drop_last() =~= texts.take(line));
    if line == 0 {
        assert(join_lines(t) == t[0]);
    }
}

/// The line that character `pos` of the whole text falls on, and its index
/// in that line; a position just after a line's last character stays on it.
pub fn line_position(b: &Buffer, pos: usize) -> (r: (usize, usize))
    requires
        b.lines@.len() > 0,
        pos <= b.text().len(),
    ensures
        r.0 < b.lines@.len(),
        r.1 <= b.lines@[r.0 as int].text@.len(),
        pos == line_start(line_texts(b.lines@), r.0 as int) + r.1,
{
    let ghost texts = line_texts(b.lines@);
    let n = b.lines.len();
    let mut line: usize = 0;
    let mut start: usize = 0;
    loop
        invariant
            n == b.lines@.len(),
            n > 0,
            line < n,
            start == line_start(texts, line as int),
            start <= pos,
            pos <= b.text().len(),
            texts == line_texts(b.lines@),
        decreases n - line,
    {
        let len = b.lines[line].text.as_str().unicode_len();
        proof {
            lemma_line_start_next(texts, line as int);
            assert(texts[line as int] == b.lines@[line as int].text@);
        }
        if pos - start <= len {
            return (line, pos - start);
        }
        if line + 1 == n {
            proof {
                assert(texts.take(n as int) =~= texts);
            }
            return (line, pos - start);
        }
        start = start + len + 1;
        line = line + 1;
    }
}

/// The characters of `text`, in order.
pub fn chars_of(text: &str) -> (r: Vec<char>)
    ensures
        r@ == text@,
{
    broadcast use vstd::string::axiom_spec_iter, vstd::string::next_postcondition;

    let n = text.unicode_len();
    let mut it = text.chars();
    let mut r: Vec<char> = Vec::new();
    while r.len() < n
        invariant
            n == text@.len(),
            r@.len() <= n,
            r@ + it.remaining() == text@,
        decreases n - r@.len(),
    {
        match it.next() {
            Some(c) => {
                r.push(c);
                assert(r@ + it.remaining() =~= text@);
            },
            None => {
                assert(false);
            },
        }
    }
    assert(it.remaining().len() == 0);
    assert(r@ + it.remaining() =~= r@);
    r
}

/// Characters that belong to words: all but blanks and line breaks.
pub open spec fn is_word_char(c: char) -> bool {
    !(c == ' ' || c == '\t' || c == '\n' || c == '\r')
}

/// `[a, b)` is the run of word characters that reaches `pos` (from the left
/// or the right), as long as it can be.
pub open spec fn word_bounds(t: Seq<char>, pos: int, a: int, b: int) -> bool {
    &&& 0 <= a <= pos <= b <= t.len()
    &&& forall|i: int| a <= i < b ==> is_word_char(#[trigger] t[i])
    &&& (a == 0 || !is_word_char(t[a - 1]))
    &&& (b == t.len() || !is_word_char(t[b]))
}

fn is_word_char_exec(c: char) -> (r: bool)
    ensures
        r == is_word_char(c),
{
    !(c == ' ' || c == '\t' || c == '\n' || c == '\r')
}

/// A keyboard cursor motion.
#[derive(Clone, Copy, Debug, PartialEq, Eq)]
pub enum Motion {
    /// One character back.
    Left,
    /// One character on.
    Right,
    /// To the start of the cursor's line.
    Home,
    /// To the end of the cursor's line.
    End,
    BufferStart,
    BufferEnd,
}

/// A repeating timer in milliseconds.
#[derive(Clone, Copy, Debug, PartialEq, Eq)]
pub struct BlinkTimer {
    pub period_ms: u64,
    pub elapsed_ms: u64,
}

impl BlinkTimer {
    pub open spec fn wf(&self) -> bool {
        self.elapsed_ms < self.period_ms
    }

    pub fn new(period_ms: u64) -> (r: BlinkTimer)
        requires
            period_ms > 0,
        ensures
            r.wf(),
            r.period_ms == period_ms,
            r.elapsed_ms == 0,
    {
        BlinkTimer { period_ms, elapsed_ms: 0 }
    }

    /// Advances by `delta_ms`; true where a period ended during the step.
    pub fn tick(&mut self, delta_ms: u64) -> (finished: bool)
        requires
            old(self).wf(),
        ensures
            final(self).wf(),
            final(self).period_ms == old(self).period_ms,
            finished == (old(self).elapsed_ms + delta_ms >= old(self).period_ms),
            final(self).elapsed_ms == (old(self).elapsed_ms + delta_ms) % (old(
                self,
            ).period_ms as int),
    {
        let left = self.period_ms - self.elapsed_ms;
        if delta_ms >= left {
            let e = (delta_ms - left) % self.period_ms;
            proof {
                let p = self.period_ms as int;
                let d = (delta_ms - left) as int;
                assert((self.elapsed_ms + delta_ms) == d + p);
                assert((d + p) % p == d % p) by {
                    vstd::arithmetic::div_mod::lemma_mod_add_multiples_vanish(d, p);
                }
            }
            self.elapsed_ms = e;
            true
        } else {
            proof {
                vstd::arithmetic::div_mod::lemma_small_mod(
                    (self.elapsed_ms + delta_ms) as nat,
                    self.period_ms as nat,
                );
            }
            self.elapsed_ms = self.elapsed_ms + delta_ms;
            false
        }
    }
}

/// A buffer being edited: a cursor and an optional selection anchor, both
/// counted in characters of the whole text, and a blinking cursor.
pub struct CosmicEditor {
    pub buffer: Buffer,
    pub cursor: usize,
    pub select_opt: Option<usize>,
    pub redraw: bool,
    pub cursor_visible: bool,
    pub cursor_timer: BlinkTimer,
}

impl CosmicEditor {
    pub open spec fn wf(&self) -> bool {
        &&& self.buffer.wf()
        &&& self.cursor <= self.buffer.text().len()
        &&& (self.select_opt matches Some(s) ==> s <= self.buffer.text().len())
        &&& self.cursor_timer.wf()
    }

    /// Starts editing `buffer` with the cursor at the start and no selection.
    pub fn new(buffer: Buffer, blink_period_ms: u64) -> (r: CosmicEditor)
        requires
            buffer.wf(),
            blink_period_ms > 0,
        ensures
            r.wf(),
            r.buffer == buffer,
            r.cursor == 0,
            r.select_opt is None,
            r.redraw,
            r.cursor_visible,
    {
        CosmicEditor {
            buffer,
            cursor: 0,
            select_opt: None,
            redraw: true,
            cursor_visible: true,
            cursor_timer: BlinkTimer::new(blink_period_ms),
        }
    }

    /// Inserts `s` at the cursor where the resulting text stays within
    /// `limits`, moving the cursor past it and clearing the selection. An
    /// edit over a limit is refused whole: nothing changes and the result is
    /// false. Spans keep their characters (see `Buffer::insert_at`).
    pub fn insert_string(&mut self, s: &str, limits: &EditLimits) -> (r: bool)
        requires
            old(self).wf(),
        ensures
            final(self).wf(),
            ({
                let t = old(self).buffer.text();
                let c = old(self).cursor as int;
                let after = t.take(c) + s@ + t.skip(c);
                &&& r == within_limits(after, *limits)
                &&& r ==> final(self).buffer.text() == after && final(self).cursor == c + s@.len()
                    && final(self).select_opt is None && final(self).redraw
                    && final(self).buffer.redraw
                &&& !r ==> *final(self) == *old(self)
            }),
    {
        let text = self.buffer.get_text();
        let n = text.as_str().unicode_len();
        let head = text.as_str().substring_char(0, self.cursor);
        let tail = text.as_str().substring_char(self.cursor, n);
        let mut new_text = head.to_owned();
        new_text.append(s);
        new_text.append(tail);
        let ghost t = old(self).buffer.text();
        assert(head@ =~= t.take(self.cursor as int));
        assert(tail@ =~= t.skip(self.cursor as int));
        if !fits_limits(new_text.as_str(), limits) {
            return false;
        }
        let s_len = s.unicode_len();
        let new_len = new_text.as_str().unicode_len();
        assert(new_text@ =~= head@ + s@ + tail@);
        if self.buffer.lines.len() == 0 {
            let mut b = CosmicEditBuffer(Buffer {
                lines: Vec::new(),
                metrics: self.buffer.metrics,
                redraw: true,
            });
            b.set_text(new_text.as_str(), TextAttrs::new());
            self.buffer = b.0;
        } else {
            self.buffer.insert_at(self.cursor, s);
        }
        self.cursor = self.cursor + s_len;
        self.select_opt = None;
        self.redraw = true;
        true
    }

    /// Places the cursor at `pos`, or at the end of the text where `pos`
    /// lies beyond it, and clears the selection.
    pub fn click(&mut self, pos: usize) -> (len: usize)
        requires
            old(self).wf(),
        ensures
            final(self).wf(),
            len == old(self).buffer.text().len(),
            final(self).cursor == (if pos <= len {
                pos
            } else {
                len
            }),
            final(self).select_opt is None,
            final(self).buffer == old(self).buffer,
            final(self).redraw,
    {
        let len = self.buffer.get_text().as_str().unicode_len();
        self.cursor = if pos <= len {
            pos
        } else {
            len
        };
        self.select_opt = None;
        self.redraw = true;
        len
    }

    /// Extends the selection from `anchor` to `pos`, both clamped to the
    /// text, with the cursor at `pos`.
    pub fn select_to(&mut self, anchor: usize, pos: usize)
        requires
            old(self).wf(),
        ensures
            final(self).wf(),
            ({
                let len = old(self).buffer.text().len();
                &&& final(self).cursor == (if pos <= len {
                    pos as int
                } else {
                    len as int
                })
                &&& final(self).select_opt matches Some(a) && a == (if anchor <= len {
                    anchor as int
                } else {
                    len as int
                })
            }),
            final(self).buffer == old(self).buffer,
            final(self).redraw,
    {
        let len = self.click(anchor);
        let a = self.cursor;
        self.cursor = if pos <= len {
            pos
        } else {
            len
        };
        self.select_opt = Some(a);
    }

    /// Selects the word at `pos` (clamped to the text): the anchor goes to
    /// its start and the cursor to its end.
    pub fn select_word(&mut self, pos: usize)
        requires
            old(self).wf(),
        ensures
            final(self).wf(),
            final(self).buffer == old(self).buffer,
            final(self).redraw,
            ({
                let t = old(self).buffer.text();
                let p = if pos <= t.len() {
                    pos as int
                } else {
                    t.len() as int
                };
                final(self).select_opt matches Some(a) && word_bounds(
                    t,
                    p,
                    a as int,
                    final(self).cursor as int,
                )
            }),
    {
        let text = self.buffer.get_text();
        let t = chars_of(text.as_str());
        let len = t.len();
        let p = if pos <= len {
            pos
        } else {
            len
        };
        let mut a = p;
        while a > 0 && is_word_char_exec(t[a - 1])
            invariant
                t@ == self.buffer.text(),
                a <= p <= len,
                len == t@.len(),
                forall|i: int| a <= i < p ==> is_word_char(#[trigger] t@[i]),
            decreases a,
        {
            a = a - 1;
        }
        let mut b = p;
        while b < len && is_word_char_exec(t[b])
            invariant
                t@ == self.buffer.text(),
                a <= p <= b <= len,
                len == t@.len(),
                forall|i: int| a <= i < b ==> is_word_char(#[trigger] t@[i]),
            decreases len - b,
        {
            b = b + 1;
        }
        self.select_opt = Some(a);
        self.cursor = b;
        self.redraw = true;
    }

    /// Selects the line that `pos` (clamped to the text) falls on, without
    /// its line break; returns that line's index.
    pub fn select_line(&mut self, pos: usize) -> (line: usize)
        requires
            old(self).wf(),
            old(self).buffer.lines@.len() > 0,
        ensures
            final(self).wf(),
            final(self).buffer == old(self).buffer,
            final(self).redraw,
            line < old(self).buffer.lines@.len(),
            ({
                let texts = line_texts(old(self).buffer.lines@);
                let t = old(self).buffer.text();
                let p = if pos <= t.len() {
                    pos as int
                } else {
                    t.len() as int
                };
                let start = line_start(texts, line as int);
                &&& start <= p <= start + texts[line as int].len()
                &&& final(self).select_opt matches Some(a) && a == start
                &&& final(self).cursor == start + texts[line as int].len()
            }),
    {
        let len = self.buffer.get_text().as_str().unicode_len();
        let p = if pos <= len {
            pos
        } else {
            len
        };
        let (l, idx) = line_position(&self.buffer, p);
        let line_len = self.buffer.lines[l].text.as_str().unicode_len();
        let start = p - idx;
        proof {
            lemma_line_end_in_text(line_texts(self.buffer.lines@), l as int);
        }
        self.select_opt = Some(start);
        self.cursor = start + line_len;
        self.redraw = true;
        l
    }

    /// A click with its count: one places the cursor, two select a word,
    /// three or more select a line.
    pub fn click_count(&mut self, pos: usize, count: u32)
        requires
            old(self).wf(),
        ensures
            final(self).wf(),
            final(self).buffer == old(self).buffer,
            final(self).redraw,
            ({
                let t = old(self).buffer.text();
                let texts = line_texts(old(self).buffer.lines@);
                let p = if pos <= t.len() {
                    pos as int
                } else {
                    t.len() as int
                };
                &&& count <= 1 ==> final(self).select_opt is None && final(self).cursor == p
                &&& (count == 2 || (count >= 3 && texts.len() == 0)) ==> (final(self).select_opt matches Some(a)
                    && word_bounds(t, p, a as int, final(self).cursor as int))
                &&& (count >= 3 && texts.len() > 0) ==> exists|l: int|
                    0 <= l < texts.len() && line_start(texts, l) <= p <= line_start(texts, l)
                        + texts[l].len() && (final(self).select_opt matches Some(a) && a
                        == line_start(texts, l)) && final(self).cursor == line_start(texts, l)
                        + texts[l].len()
            }),
    {
        if count <= 1 {
            self.click(pos);
        } else if count == 2 || self.buffer.lines.len() == 0 {
            self.select_word(pos);
        } else {
            self.select_line(pos);
        }
    }

    /// Moves the cursor by `motion`. With `extend` (shift held) the selection
    /// grows from its anchor, which is the old cursor where none was set;
    /// without it the selection is cleared.
    pub fn move_cursor(&mut self, motion: Motion, extend: bool)
        requires
            old(self).wf(),
        ensures
            final(self).wf(),
            final(self).buffer == old(self).buffer,
            final(self).redraw,
            extend ==> final(self).select_opt == Some(
                match old(self).select_opt {
                    Some(a) => a,
                    None => old(self).cursor,
                },
            ),
            !extend ==> final(self).select_opt is None,
            ({
                let t = old(self).buffer.text();
                let texts = line_texts(old(self).buffer.lines@);
                let c = old(self).cursor as int;
                let nc = final(self).cursor as int;
                match motion {
                    Motion::Left => nc == if c > 0 {
                        c - 1
                    } else {
                        0
                    },
                    Motion::Right => nc == if c < t.len() {
                        c + 1
                    } else {
                        c
                    },
                    Motion::BufferStart => nc == 0,
                    Motion::BufferEnd => nc == t.len(),
                    Motion::Home => texts.len() == 0 && nc == 0 || exists|l: int|
                        0 <= l < texts.len() && line_start(texts, l) <= c <= line_start(texts, l)
                            + texts[l].len() && nc == line_start(texts, l),
                    Motion::End => texts.len() == 0 && nc == 0 || exists|l: int|
                        0 <= l < texts.len() && line_start(texts, l) <= c <= line_start(texts, l)
                            + texts[l].len() && nc == line_start(texts, l) + texts[l].len(),
                }
            }),
    {
        let len = self.buffer.get_text().as_str().unicode_len();
        let anchor = match self.select_opt {
            Some(a) => a,
            None => self.cursor,
        };
        let c = self.cursor;
        let nc = match motion {
            Motion::Left => if c > 0 {
                c - 1
            } else {
                0
            },
            Motion::Right => if c < len {
                c + 1
            } else {
                c
            },
            Motion::BufferStart => 0,
            Motion::BufferEnd => len,
            Motion::Home | Motion::End => {
                if self.buffer.lines.len() == 0 {
                    0
                } else {
                    let (l, idx) = line_position(&self.buffer, c);
                    let line_len = self.buffer.lines[l].text.as_str().unicode_len();
                    proof {
                        lemma_line_end_in_text(line_texts(self.buffer.lines@), l as int);
                    }
                    if let Motion::Home = motion {
                        c - idx
                    } else {
                        c - idx + line_len
                    }
                }
            },
        };
        self.cursor = nc;
        self.select_opt = if extend {
            Some(anchor)
        } else {
            None
        };
        self.redraw = true;
    }

    /// The text between the anchor and the cursor, if a selection exists.
    pub fn copy_selection(&self) -> (r: Option<String>)
        requires
            self.wf(),
        ensures
            match self.select_opt {
                None => r is None,
                Some(a) => r matches Some(t) && t@ == (if a <= self.cursor {
                    self.buffer.text().subrange(a as int, self.cursor as int)
                } else {
                    self.buffer.text().subrange(self.cursor as int, a as int)
                }),
            },
    {
        match self.select_opt {
            None => None,
            Some(a) => {
                let text = self.buffer.get_text();
                let (from, to) = if a <= self.cursor {
                    (a, self.cursor)
                } else {
                    (self.cursor, a)
                };
                Some(text.as_str().substring_char(from, to).to_owned())
            },
        }
    }
}

/// Applies typed text to a widget: a read-only widget, or one without an
/// editor, takes none; an editor takes it under `limits`. True where the
/// text changed.
pub fn handle_text_input(
    editor: &mut CosmicEditor,
    s: &str,
    read_only: bool,
    limits: &EditLimits,
) -> (r: bool)
    requires
        old(editor).wf(),
    ensures
        final(editor).wf(),
        read_only ==> !r && *final(editor) == *old(editor),
        !read_only ==> r == within_limits(
            old(editor).buffer.text().take(old(editor).cursor as int) + s@
                + old(editor).buffer.text().skip(old(editor).cursor as int),
            *limits,
        ),
        r ==> final(editor).buffer.text() == old(editor).buffer.text().take(
            old(editor).cursor as int,
        ) + s@ + old(editor).buffer.text().skip(old(editor).cursor as int),
        !r ==> final(editor).buffer.text() == old(editor).buffer.text(),
{
    if read_only {
        return false;
    }
    editor.insert_string(s, limits)
}

/// Advances the blink timer of a widget that is not read-only, flipping the
/// cursor's visibility and asking for a redraw each time a period ends.
pub fn blink_cursor(editor: &mut CosmicEditor, delta_ms: u64, read_only: bool)
    requires
        old(editor).wf(),
    ensures
        final(editor).wf(),
        final(editor).buffer == old(editor).buffer,
        final(editor).cursor == old(editor).cursor,
        final(editor).select_opt == old(editor).select_opt,
        read_only ==> *final(editor) == *old(editor),
        !read_only ==> {
            let finished = old(editor).cursor_timer.elapsed_ms + delta_ms >= old(
                editor,
            ).cursor_timer.period_ms;
            &&& final(editor).cursor_visible == (old(editor).cursor_visible != finished)
            &&& final(editor).redraw == (old(editor).redraw || finished)
            &&& final(editor).cursor_timer.elapsed_ms == (old(editor).cursor_timer.elapsed_ms
                + delta_ms) % (old(editor).cursor_timer.period_ms as int)
        },
{
    if read_only {
        return ;
    }
    if editor.cursor_timer.tick(delta_ms) {
        editor.cursor_visible = !editor.cursor_visible;
        editor.redraw = true;
    }
}

impl CosmicEditBuffer {
    /// The plain buffer that remains when editing ends: a deep copy of the
    /// editor's lines, marked for redraw; cursor and selection are dropped.
    pub fn from_downgrading_editor(removed_editor: &CosmicEditor) -> (r: CosmicEditBuffer)
        requires
            removed_editor.wf(),
        ensures
            r.0.wf(),
            r.0.text() == removed_editor.buffer.text(),
            r.0.lines@.len() == removed_editor.buffer.lines@.len(),
            forall|i: int|
                0 <= i < r.0.lines@.len() ==> (#[trigger] r.0.lines@[i]).spans@
                    == removed_editor.buffer.lines@[i].spans@ && r.0.lines@[i].attrs
                    == removed_editor.buffer.lines@[i].attrs,
            r.0.metrics == removed_editor.buffer.metrics,
            r.0.redraw,
    {
        let buffer = removed_editor.buffer.copy();
        CosmicEditBuffer::from_raw_buffer(buffer)
    }
}


/// Appends copies of `src[from..to]` to `out`.
fn copy_lines_into(out: &mut Vec<StyledLine>, src: &Vec<StyledLine>, from: usize, to: usize)
    requires
        from <= to <= src@.len(),
        forall|m: int| 0 <= m < src@.len() ==> (#[trigger] src@[m]).wf(),
        forall|m: int| 0 <= m < old(out)@.len() ==> (#[trigger] old(out)@[m]).wf(),
    ensures
        line_texts(final(out)@) == line_texts(old(out)@) + line_texts(src@).subrange(
            from as int,
            to as int,
        ),
        forall|m: int| 0 <= m < final(out)@.len() ==> (#[trigger] final(out)@[m]).wf(),
{
    let ghost out0 = line_texts(out@);
    let mut k: usize = from;
    while k < to
        invariant
            from <= k <= to <= src@.len(),
            forall|m: int| 0 <= m < src@.len() ==> (#[trigger] src@[m]).wf(),
            forall|m: int| 0 <= m < out@.len() ==> (#[trigger] out@[m]).wf(),
            line_texts(out@) == out0 + line_texts(src@).subrange(from as int, k as int),
            out@.len() == out0.len() + (k - from),
        decreases to - k,
    {
        let c = src[k].copy();
        assert(src@[k as int].wf());
        let ghost l0 = out@;
        out.push(c);
        proof {
            let want = out0 + line_texts(src@).subrange(from as int, k + 1);
            assert(want.len() == out@.len());
            assert forall|m: int| 0 <= m < out@.len() implies line_texts(out@)[m] == want[m] by {
                if m < l0.len() {
                    assert(out@[m] == l0[m]);
                    assert(line_texts(l0)[m] == (out0 + line_texts(src@).subrange(
                        from as int,
                        k as int,
                    ))[m]);
                }
            }
            assert(line_texts(out@) =~= want);
        }
        k = k + 1;
    }
}

/// The lines that one line becomes when `s` is inserted at character `idx`:
/// split at the newlines of `s`, spans kept on both sides.
fn insert_in_line(line: &StyledLine, idx: usize, s: &str) -> (r: Vec<StyledLine>)
    requires
        line.wf(),
        idx <= line.text@.len(),
    ensures
        r@.len() > 0,
        forall|m: int| 0 <= m < r@.len() ==> (#[trigger] r@[m]).wf(),
        join_lines(line_texts(r@)) == line.text@.take(idx as int) + s@ + line.text@.skip(
            idx as int,
        ),
{
    let mut lines: Vec<StyledLine> = Vec::new();
        assert(line.wf());
        let attrs = line.attrs;
        let align = line.align;
        let text = line.text.as_str();
        let len = text.unicode_len();
        let left = text.substring_char(0, idx);
        let right = text.substring_char(idx, len);
        let segs = split_lines(s, attrs);
        let mut cur = left.to_owned();
        let mut cur_spans = spans_before(&line.spans, len, idx);
        let mut cur_len = idx;
        let ghost mid: Seq<Seq<char>> = seq![cur@];
        let mut j: usize = 0;
        while j < segs.len()
            invariant
                splits_into(s@, line_texts(segs@)),
                segs@.len() > 0,
                j <= segs@.len(),
                cur_len == cur@.len(),
                !cur@.contains('\n'),
                spans_wf(cur_spans@, cur_len as int),
                forall|m: int| 0 <= m < lines@.len() ==> (#[trigger] lines@[m]).wf(),
                mid == line_texts(lines@).push(cur@),
                j == 0 ==> join_lines(mid) == left@,
                j > 0 ==> join_lines(mid) == left@ + join_lines(line_texts(segs@).take(j as int)),
            decreases segs@.len() - j,
        {
            let ghost seg = line_texts(segs@)[j as int];
            assert(!seg.contains('\n'));
            if j > 0 {
                let ghost m0 = mid;
                lines.push(StyledLine { text: cur, attrs, spans: cur_spans, align });
                cur = String::new();
                cur_spans = Vec::new();
                cur_len = 0;
                proof {
                    assert(line_texts(lines@) =~= m0);
                    mid = m0.push(Seq::empty());
                    lemma_join_push_line(m0, Seq::empty());
                }
            }
            let ghost m1 = mid;
            let ghost old_cur = cur@;
            cur.append(segs[j].text.as_str());
            cur_len = cur.as_str().unicode_len();
            proof {
                assert(cur@ =~= old_cur + seg);
                assert(spans_wf(cur_spans@, cur_len as int));
                assert(!cur@.contains('\n')) by {
                    if cur@.contains('\n') {
                        let x = choose|x: int| 0 <= x < cur@.len() && cur@[x] == '\n';
                        if x < old_cur.len() {
                            assert(old_cur[x] == '\n');
                        } else {
                            assert(seg[x - old_cur.len()] == '\n');
                        }
                    }
                }
                mid = m1.drop_last().push(m1.last() + seg);
                lemma_join_append(m1, seg);
                assert(mid =~= line_texts(lines@).push(cur@));
                let st = line_texts(segs@);
                if j > 0 {
                    assert(st.take(j + 1).drop_last() =~= st.take(j as int));
                    assert(join_lines(mid) =~= left@ + join_lines(st.take(j + 1)));
                } else {
                    assert(join_lines(st.take(1)) == seg);
                    assert(join_lines(mid) =~= left@ + join_lines(st.take(1)));
                }
            }
            j = j + 1;
        }
        proof {
            assert(line_texts(segs@).take(segs@.len() as int) =~= line_texts(segs@));
        }
        let start = cur_len;
        let ghost m2 = mid;
        let ghost old_cur = cur@;
        cur.append(right);
        cur_len = cur.as_str().unicode_len();
        assert(cur@ =~= old_cur + right@);
        let mut tail = spans_after(&line.spans, len, idx, start);
        let ghost head_spans = cur_spans@;
        let ghost tail_spans = tail@;
        assert(spans_wf(head_spans, start as int));
        cur_spans.append(&mut tail);
        proof {
            assert(cur_spans@ =~= head_spans + tail_spans);
            assert forall|i: int| 0 < i < cur_spans@.len() implies cur_spans@[i - 1].end
                <= #[trigger] cur_spans@[i].start by {
                if i < head_spans.len() {
                    assert(cur_spans@[i - 1] == head_spans[i - 1]);
                } else if i == head_spans.len() {
                    assert(cur_spans@[i - 1] == head_spans[i - 1]);
                    let h = head_spans[i - 1];
                    assert(0 <= i - 1 < head_spans.len());
                    assert(spans_wf(head_spans, start as int));
                    assert(head_spans[i - 1].start <= head_spans[i - 1].end);
                    assert(h.end <= start);
                    assert(cur_spans@[i] == tail_spans[0]);
                } else {
                    assert(cur_spans@[i - 1] == tail_spans[i - 1 - head_spans.len()]);
                }
            }
            assert forall|i: int| 0 <= i < cur_spans@.len() implies #[trigger] cur_spans@[i].start
                <= cur_spans@[i].end <= cur_len by {
                if i < head_spans.len() {
                    assert(cur_spans@[i] == head_spans[i]);
                } else {
                    assert(cur_spans@[i] == tail_spans[i - head_spans.len()]);
                }
            }
            assert(!cur@.contains('\n')) by {
                if cur@.contains('\n') {
                    let x = choose|x: int| 0 <= x < cur@.len() && cur@[x] == '\n';
                    if x < old_cur.len() {
                        assert(old_cur[x] == '\n');
                    } else {
                        assert(right@[x - old_cur.len()] == '\n');
                        assert(line.text@[idx + x - old_cur.len()] == '\n');
                    }
                }
            }
        }
        lines.push(StyledLine { text: cur, attrs, spans: cur_spans, align });
        proof {
            mid = m2.drop_last().push(m2.last() + right@);
            lemma_join_append(m2, right@);
            assert(mid =~= line_texts(lines@));
        }
    proof {
        assert(left@ =~= line.text@.take(idx as int));
        assert(right@ =~= line.text@.skip(idx as int));
    }
    lines
}

/// Tests `spans_wf`.
pub fn spans_are_wf(spans: &Vec<Span>, len: usize) -> (r: bool)
    ensures
        r == spans_wf(spans@, len as int),
{
    let mut i: usize = 0;
    while i < spans.len()
        invariant
            i <= spans@.len(),
            forall|k: int| 0 <= k < i ==> #[trigger] spans@[k].start <= spans@[k].end <= len,
            forall|k: int| 0 < k < i ==> spans@[k - 1].end <= #[trigger] spans@[k].start,
        decreases spans@.len() - i,
    {
        let sp = spans[i];
        if !(sp.start <= sp.end && sp.end <= len) {
            return false;
        }
        if i > 0 && spans[i - 1].end > sp.start {
            return false;
        }
        i = i + 1;
    }
    true
}

impl StyledLine {
    /// Tests `wf`.
    pub fn is_wf(&self) -> (r: bool)
        ensures
            r == self.wf(),
    {
        let t = chars_of(self.text.as_str());
        let mut i: usize = 0;
        while i < t.len()
            invariant
                t@ == self.text@,
                i <= t@.len(),
                forall|k: int| 0 <= k < i ==> t@[k] != '\n',
            decreases t@.len() - i,
        {
            if t[i] == '\n' {
                assert(self.text@.contains('\n'));
                return false;
            }
            i = i + 1;
        }
        spans_are_wf(&self.spans, t.len())
    }
}

impl Buffer {
    /// Tests `wf`.
    pub fn is_wf(&self) -> (r: bool)
        ensures
            r == self.wf(),
    {
        let mut i: usize = 0;
        while i < self.lines.len()
            invariant
                i <= self.lines@.len(),
                forall|k: int| 0 <= k < i ==> (#[trigger] self.lines@[k]).wf(),
            decreases self.lines@.len() - i,
        {
            if !self.lines[i].is_wf() {
                return false;
            }
            i = i + 1;
        }
        true
    }
}

impl CosmicEditor {
    /// Tests `wf`.
    pub fn is_wf(&self) -> (r: bool)
        ensures
            r == self.wf(),
    {
        if !self.buffer.is_wf() || self.cursor_timer.elapsed_ms >= self.cursor_timer.period_ms {
            return false;
        }
        let len = self.buffer.get_text().as_str().unicode_len();
        if self.cursor > len {
            return false;
        }
        match self.select_opt {
            Some(a) => a <= len,
            None => true,
        }
    }
}

impl Buffer {
    /// Inserts `s` at character `pos` of the whole text. The line it falls
    /// on is split at newlines of `s`; its spans keep their characters, and
    /// the inserted characters take the line's default style.
    pub fn insert_at(&mut self, pos: usize, s: &str)
        requires
            old(self).wf(),
            old(self).lines@.len() > 0,
            pos <= old(self).text().len(),
        ensures
            final(self).wf(),
            final(self).text() == old(self).text().take(pos as int) + s@ + old(self).text().skip(
                pos as int,
            ),
            final(self).metrics == old(self).metrics,
            final(self).redraw,
    {
        let ghost texts = line_texts(self.lines@);
        let (l, idx) = line_position(self, pos);
        let n = self.lines.len();
        let mut lines: Vec<StyledLine> = Vec::new();
        assert(self.lines@[l as int].wf());
        copy_lines_into(&mut lines, &self.lines, 0, l);
        let mut mid = insert_in_line(&self.lines[l], idx, s);
        let ghost p = line_texts(lines@);
        let ghost m = line_texts(mid@);
        let ghost mv = mid@;
        lines.append(&mut mid);
        proof {
            assert(line_texts(lines@) =~= p + m);
            assert forall|k: int| 0 <= k < lines@.len() implies (#[trigger] lines@[k]).wf() by {
                if k >= p.len() {
                    assert(lines@[k] == mv[k - p.len()]);
                }
            }
        }
        copy_lines_into(&mut lines, &self.lines, l + 1, n);
        proof {
            let q = texts.skip(l + 1);
            let line = self.lines@[l as int];
            assert(texts.subrange(0, l as int) =~= texts.take(l as int));
            assert(texts.subrange(l + 1, n as int) =~= q);
            assert(texts =~= p + seq![texts[l as int]] + q);
            lemma_join_around(p, seq![texts[l as int]], q);
            assert(join_lines(seq![texts[l as int]]) == texts[l as int]);
            assert(line_texts(lines@) =~= p + m + q);
            lemma_join_around(p, m, q);
            let t = join_lines(texts);
            let pre = join_before(p);
            assert(line_start(texts, l as int) == pre.len());
            assert(t =~= pre + line.text@ + join_after(q));
            assert(t.take(pos as int) =~= pre + line.text@.take(idx as int));
            assert(t.skip(pos as int) =~= line.text@.skip(idx as int) + join_after(q));
            assert(join_lines(line_texts(lines@)) =~= t.take(pos as int) + s@ + t.skip(pos as int));
        }
        self.lines = lines;
        self.redraw = true;
    }
}

} // verus!

//! Rectangular regions of the terminal screen that hold their text and
//! styles, so that they can be redrawn, scrolled and partly written over.
//!
//! The buffers do no output themselves. Each operation queues the commands
//! that bring the screen in line with the buffer, and the owner of the
//! terminal takes them from the queue and carries them out in order.

use crate::chgrid::{cut_length, Rect, Row};
use crate::reflow::{cut_of, reflowed, wrap_line};
use crate::segment::{clusters, count_graphemes, grapheme_starts};
use crate::text::{blanks, byte_len, spaces};
use crate::wrap::{segments, step, wrap_to_width_offset};
use vstd::prelude::*;
use vstd::string::*;
use vstd::utf8::*;

verus! {

/// Something for the terminal to do.
#[derive(Debug, Clone, PartialEq)]
pub enum Command<T> {
    /// Put the cursor at column `x` of line `y` of the screen.
    MoveTo { x: u32, y: u32 },
    /// Print `text` in the style `style` at the cursor.
    Print { text: String, style: T },
    /// Print `text` in the terminal's plain style at the cursor.
    Plain { text: String },
    /// Carry out what has been queued so far.
    Flush,
    /// Scroll the screen up by one line. Where the terminal can do that,
    /// the next `fallback` commands are left out; where it cannot, they
    /// redraw the region instead. `None` says that the region cannot be
    /// redrawn.
    ScrollUp { fallback: Option<usize> },
    /// Wait until a key is pressed or the mouse is used.
    WaitForKey,
    /// Scroll the screen down by one line, with a fallback as for
    /// `ScrollUp`.
    ScrollDown { fallback: Option<usize> },
    /// Let the terminal scroll only the lines from `top` to `bottom`, which
    /// count from 1.
    SetScrollRegion { top: u16, bottom: u16 },
    /// Clear the whole screen.
    ClearScreen,
    /// Write `text` as it is, for output that is no terminal, and flush.
    Raw { text: String },
}

/// A command with its text as UTF-8 bytes.
pub enum Shown<T> {
    MoveTo { x: u32, y: u32 },
    Print { text: Seq<u8>, style: T },
    Plain { text: Seq<u8> },
    Flush,
    ScrollUp { fallback: Option<usize> },
    WaitForKey,
    ScrollDown { fallback: Option<usize> },
    SetScrollRegion { top: u16, bottom: u16 },
    ClearScreen,
    Raw { text: Seq<u8> },
}

impl<T> View for Command<T> {
    type V = Shown<T>;

    open spec fn view(&self) -> Shown<T> {
        match *self {
            Command::MoveTo { x, y } => Shown::MoveTo { x: x, y: y },
            Command::Print { text, style } => Shown::Print {
                text: encode_utf8(text@),
                style: style,
            },
            Command::Plain { text } => Shown::Plain { text: encode_utf8(text@) },
            Command::Flush => Shown::Flush,
            Command::ScrollUp { fallback } => Shown::ScrollUp { fallback: fallback },
            Command::WaitForKey => Shown::WaitForKey,
            Command::ScrollDown { fallback } => Shown::ScrollDown { fallback: fallback },
            Command::SetScrollRegion { top, bottom } => Shown::SetScrollRegion {
                top: top,
                bottom: bottom,
            },
            Command::ClearScreen => Shown::ClearScreen,
            Command::Raw { text } => Shown::Raw { text: encode_utf8(text@) },
        }
    }
}

/// The commands of a list, each with its text as bytes.
pub open spec fn shown<T>(commands: Seq<Command<T>>) -> Seq<Shown<T>> {
    commands.map_values(|c: Command<T>| c@)
}

/// Adds `command` to `list`.
pub fn emit<T>(list: &mut Vec<Command<T>>, command: Command<T>)
    ensures
        final(list)@ == old(list)@.push(command),
        shown(final(list)@) == shown(old(list)@).push(command@),
{
    list.push(command);
    proof {
        assert(shown(list@) =~= shown(old(list)@).push(command@));
    }
}

/// The text of the runs of `row` from run `cur` on, each to be printed with
/// its style, cut off where `width` grapheme clusters have been printed,
/// `graphemes` of which have been already.
pub open spec fn row_prints<T: PartialEq>(
    row: Row<T>,
    width: int,
    cur: int,
    graphemes: int,
) -> Seq<Shown<T>>
    decreases row.runs@.len() - cur,
{
    if cur < 0 || cur >= row.runs@.len() || graphemes >= width {
        seq![]
    } else {
        let range = row.run_range(cur);
        let run = row.bytes().subrange(range.0, range.1);
        let text = run.subrange(0, cut_length(run, width - graphemes));
        seq![Shown::Print { text: text, style: row.runs@[cur].style }] + row_prints(
            row,
            width,
            cur + 1,
            graphemes + clusters(text).len(),
        )
    }
}

/// The blank space that fills the line behind a row of `count` grapheme
/// clusters: a row that is shorter than the region is wide is filled up by
/// the difference.
pub open spec fn row_fill<T>(count: int, width: int) -> Seq<Shown<T>> {
    if count < width {
        seq![Shown::Plain { text: spaces((width - count) as nat) }]
    } else {
        seq![]
    }
}

/// What draws `row` on line `y` of the screen.
pub open spec fn row_line<T: PartialEq>(row: Row<T>, area: Rect, y: int) -> Seq<Shown<T>> {
    seq![Shown::MoveTo { x: area.x as u32, y: y as u32 }] + row_prints(
        row,
        area.width as int,
        0,
        0,
    ) + row_fill(clusters(row.bytes()).len() as int, area.width as int)
}

/// What draws the rows from `from` on, one below the other from line `y`.
pub open spec fn rows_lines<T: PartialEq>(
    rows: Seq<Row<T>>,
    from: int,
    area: Rect,
    y: int,
) -> Seq<Shown<T>>
    decreases rows.len() - from,
{
    if from < 0 || from >= rows.len() {
        seq![]
    } else {
        row_line(rows[from], area, y) + rows_lines(rows, from + 1, area, y + 1)
    }
}

/// What blanks the lines of the region from line `y` on.
pub open spec fn blank_lines<T>(area: Rect, y: int) -> Seq<Shown<T>>
    decreases area.y + area.height - y,
{
    if y >= area.y + area.height {
        seq![]
    } else {
        seq![
            Shown::MoveTo { x: area.x as u32, y: y as u32 },
            Shown::Plain { text: spaces(area.width as nat) },
        ] + blank_lines(area, y + 1)
    }
}

/// What redraws a region: every row from `first_row` on, then blank lines
/// down to the end of the region, then a flush. Nothing where there is no
/// row to draw.
pub open spec fn redraw<T: PartialEq>(rows: Seq<Row<T>>, first_row: int, area: Rect) -> Seq<
    Shown<T>,
> {
    if first_row >= rows.len() {
        seq![]
    } else {
        rows_lines(rows, first_row, area, area.y as int) + blank_lines(
            area,
            area.y + rows.len() - first_row,
        ) + seq![Shown::Flush]
    }
}

/// Terminal text and style buffer.
#[derive(Debug)]
pub struct TermBuffer<T> where T: PartialEq {
    /// The region of the screen that the buffer covers.
    pub area: Rect,
    /// The rows, the visible ones and those scrolled out above them.
    pub rows: Vec<Row<T>>,
    /// The index of the row on the first line of the region.
    pub first_row: u32,
    /// The commands that wait to be carried out.
    pub out: Vec<Command<T>>,
}

impl<T> TermBuffer<T> where T: PartialEq + Default + Copy {
    /// What holds of every buffer: the runs of each row are in order.
    pub open spec fn inv(&self) -> bool {
        forall|i: int| 0 <= i < self.rows@.len() ==> (#[trigger] self.rows@[i]).ordered()
    }

    /// The region can be redrawn: every row from the first visible one on
    /// is well formed, and the lines they are drawn on can be numbered.
    pub open spec fn refreshable(&self) -> bool {
        &&& forall|i: int| self.first_row <= i < self.rows@.len() ==> (#[trigger] self.rows@[i]).wf()
        &&& self.first_row < self.rows@.len() ==> self.area.y + self.rows@.len() - self.first_row
            <= u32::MAX
    }

    /// The commands that wait to be carried out.
    pub open spec fn queued(&self) -> Seq<Shown<T>> {
        shown(self.out@)
    }

    /// `after` is this buffer with its queue emptied.
    pub open spec fn emptied(&self, after: TermBuffer<T>) -> bool {
        &&& after.area == self.area
        &&& after.rows == self.rows
        &&& after.first_row == self.first_row
        &&& after.out@.len() == 0
    }

    /// A buffer for the region `area`, with no rows.
    pub fn new(area: Rect) -> (buffer: TermBuffer<T>)
        ensures
            buffer.area == area,
            buffer.rows@.len() == 0,
            buffer.first_row == 0,
            buffer.out@.len() == 0,
            buffer.inv(),
    {
        TermBuffer { area: area, rows: Vec::new(), first_row: 0, out: Vec::new() }
    }

    /// Hands out the commands that wait and empties the queue.
    pub fn take_commands(&mut self) -> (commands: Vec<Command<T>>)
        ensures
            commands@ == old(self).out@,
            old(self).emptied(*final(self)),
            old(self).inv() ==> final(self).inv(),
    {
        let mut commands: Vec<Command<T>> = Vec::new();
        std::mem::swap(&mut commands, &mut self.out);
        commands
    }

    /// Drops all rows. With no row left there is nothing to redraw.
    pub fn clear(&mut self)
        ensures
            final(self).rows@.len() == 0,
            final(self).first_row == 0,
            final(self).area == old(self).area,
            final(self).out == old(self).out,
            final(self).inv(),
    {
        self.first_row = 0;
        self.rows = Vec::new();
    }

    /// Changes the region without redrawing it. With `keep_last` the first
    /// visible row moves down by the new height and back up by the old
    /// one, as far as there are rows above; without it the first visible
    /// row stays.
    pub fn resize(&mut self, area: Rect, keep_last: bool)
        requires
            keep_last ==> old(self).first_row + area.height <= u32::MAX,
        ensures
            final(self).area == area,
            final(self).rows == old(self).rows,
            final(self).out == old(self).out,
            final(self).first_row == if keep_last {
                let moved = old(self).first_row + area.height;
                if moved >= old(self).area.height {
                    moved - old(self).area.height
                } else {
                    0
                }
            } else {
                old(self).first_row as int
            },
    {
        if keep_last {
            self.first_row = self.first_row + area.height as u32;
            let back = if self.first_row < self.area.height as u32 {
                self.first_row
            } else {
                self.area.height as u32
            };
            self.first_row = self.first_row - back;
        }
        self.area = area;
    }

    /// The row that a write on line `y` goes to: the row there, or a fresh
    /// one where the buffer has no row there yet.
    pub open spec fn target(&self, y: u16, base: Row<T>) -> bool {
        let at = self.first_row + y;
        if at < self.rows@.len() {
            base == self.rows@[at]
        } else {
            base.fresh()
        }
    }

    /// `after` is this buffer with `s` written at column `x` of line `y` in
    /// the style `style`.
    ///
    /// The buffer has grown by fresh rows as far as that line, `s` has been
    /// written into the row on that line as `Row::overwrite_at` does, and
    /// the commands that move the cursor there, print `s` and flush have
    /// been queued.
    pub open spec fn written(
        &self,
        after: TermBuffer<T>,
        x: u16,
        y: u16,
        s: Seq<char>,
        style: T,
    ) -> bool {
        let at = self.first_row + y;
        &&& after.area == self.area
        &&& after.first_row == self.first_row
        &&& after.rows@.len() == if at < self.rows@.len() {
            self.rows@.len() as int
        } else {
            at + 1
        }
        &&& forall|i: int|
            0 <= i < self.rows@.len() && i != at ==> #[trigger] after.rows@[i] == self.rows@[i]
        &&& forall|i: int| self.rows@.len() <= i < at ==> (#[trigger] after.rows@[i]).fresh()
        &&& exists|base: Row<T>|
            self.target(y, base) && #[trigger] base.overwritten_as(after.rows@[at], x, s, style)
        &&& after.queued() == self.queued() + seq![
            Shown::MoveTo { x: (x + self.area.x) as u32, y: (y + self.area.y) as u32 },
            Shown::Print { text: encode_utf8(s), style: style },
            Shown::Flush,
        ]
    }

    /// Writes `s` at column `x` of line `y` of the region in the style
    /// `style`, and returns the number of grapheme clusters in `s`.
    pub fn put_at(&mut self, x: u16, y: u16, s: &str, style: T) -> (count: usize)
        requires
            old(self).inv(),
            old(self).first_row + y < usize::MAX,
        ensures
            final(self).inv(),
            count == grapheme_starts(s@).len(),
            old(self).written(*final(self), x, y, s@, style),
    {
        let irow = self.first_row as usize + y as usize;
        let ghost before = self.rows@;
        while self.rows.len() <= irow
            invariant
                self.inv(),
                self.area == old(self).area,
                self.first_row == old(self).first_row,
                self.out == old(self).out,
                irow == old(self).first_row + y,
                irow < usize::MAX,
                before == old(self).rows@,
                self.rows@.len() >= before.len(),
                self.rows@.len() <= irow + 1 || self.rows@.len() == before.len(),
                forall|i: int| 0 <= i < before.len() ==> #[trigger] self.rows@[i] == before[i],
                forall|i: int| before.len() <= i < self.rows@.len() ==> (#[trigger] self.rows@[i]).fresh(),
            decreases irow + 1 - self.rows@.len(),
        {
            self.rows.push(Row::new());
        }
        let ghost grown = self.rows@;
        let ghost base = grown[irow as int];
        let count = self.rows[irow].splice_at(x, s, &style);
        emit(
            &mut self.out,
            Command::MoveTo { x: x as u32 + self.area.x as u32, y: y as u32 + self.area.y as u32 },
        );
        emit(&mut self.out, Command::Print { text: s.to_owned(), style: style });
        emit(&mut self.out, Command::Flush);
        proof {
            assert(old(self).target(y, base));
            assert(base.overwritten_as(self.rows@[irow as int], x, s@, style));
            assert(self.queued() =~= old(self).queued() + seq![
                Shown::MoveTo { x: (x + self.area.x) as u32, y: (y + self.area.y) as u32 },
                Shown::Print { text: encode_utf8(s@), style: style },
                Shown::Flush,
            ]);
        }
        count
    }

    /// Prints styled text at a place in the region and returns the column
    /// after it.
    pub fn print_at(&mut self, x: u16, y: u16, s: &str, style: T) -> (next: u16)
        requires
            old(self).inv(),
            old(self).first_row + y < usize::MAX,
            x + grapheme_starts(s@).len() <= u16::MAX,
        ensures
            final(self).inv(),
            next == x + grapheme_starts(s@).len(),
            old(self).written(*final(self), x, y, s@, style),
    {
        let count = self.put_at(x, y, s, style);
        x + count as u16
    }

    /// Prints as `print_at` does where the column after the text fits in 16
    /// bits, and otherwise leaves the buffer as it is and returns `None`.
    pub fn try_print_at(&mut self, x: u16, y: u16, s: &str, style: T) -> (next: Option<u16>)
        requires
            old(self).inv(),
            old(self).first_row + y < usize::MAX,
        ensures
            final(self).inv(),
            match next {
                Some(column) => {
                    &&& column == x + grapheme_starts(s@).len()
                    &&& old(self).written(*final(self), x, y, s@, style)
                },
                None => {
                    &&& x + grapheme_starts(s@).len() > u16::MAX
                    &&& *final(self) == *old(self)
                },
            },
    {
        let count = count_graphemes(s);
        if count > (u16::MAX - x) as usize {
            return None;
        }
        Some(self.print_at(x, y, s, style))
    }

    /// `after` is this buffer with line `y` erased from column `x` on: the
    /// row on that line has been cut there, and the commands that move the
    /// cursor there, blank the rest of the line and flush have been queued.
    pub open spec fn erased(&self, after: TermBuffer<T>, x: u16, y: u16) -> bool {
        let at = self.first_row + y;
        &&& after.area == self.area
        &&& after.first_row == self.first_row
        &&& after.rows@.len() == self.rows@.len()
        &&& forall|i: int|
            0 <= i < self.rows@.len() && i != at ==> #[trigger] after.rows@[i] == self.rows@[i]
        &&& self.rows@[at].truncated_as(after.rows@[at], x)
        &&& after.queued() == self.queued() + seq![
            Shown::MoveTo { x: (self.area.x + x) as u32, y: (self.area.y + y) as u32 },
            Shown::Plain { text: spaces((self.area.width - x) as nat) },
            Shown::Flush,
        ]
    }

    /// `after` is this buffer with its first visible row at `first_row` and
    /// the commands `extra` queued.
    pub open spec fn moved(&self, after: TermBuffer<T>, first_row: int, extra: Seq<Shown<T>>) -> bool {
        &&& after.area == self.area
        &&& after.rows@ == self.rows@
        &&& after.first_row == first_row
        &&& after.queued() == self.queued() + extra
    }

    /// Erases line `y` of the region from column `x` to its end: cuts the
    /// row there and queues the spaces that blank the rest of the line.
    pub fn erase_line_to_end_at(&mut self, x: u16, y: u16)
        requires
            old(self).inv(),
            old(self).first_row + y < old(self).rows@.len(),
            x <= old(self).area.width,
        ensures
            final(self).inv(),
            old(self).erased(*final(self), x, y),
    {
        let have = self.rows.len();
        let irow = self.first_row as usize + y as usize;
        self.rows[irow].truncate_at(x);
        let fill = blanks((self.area.width - x) as usize);
        emit(
            &mut self.out,
            Command::MoveTo { x: self.area.x as u32 + x as u32, y: self.area.y as u32 + y as u32 },
        );
        emit(&mut self.out, Command::Plain { text: fill });
        emit(&mut self.out, Command::Flush);
        proof {
            assert(self.queued() =~= old(self).queued() + seq![
                Shown::MoveTo {
                    x: (old(self).area.x + x) as u32,
                    y: (old(self).area.y + y) as u32,
                },
                Shown::Plain { text: spaces((old(self).area.width - x) as nat) },
                Shown::Flush,
            ]);
        }
    }

    /// Whether the region can be redrawn.
    pub fn can_refresh(&self) -> (ok: bool)
        ensures
            ok == self.refreshable(),
    {
        let n = self.rows.len();
        let first = self.first_row as usize;
        if first >= n {
            return true;
        }
        if n - first > (u32::MAX - self.area.y as u32) as usize {
            return false;
        }
        let mut i = first;
        while i < n
            invariant
                first <= i <= n,
                n == self.rows@.len(),
                first == self.first_row,
                forall|j: int| first <= j < i ==> (#[trigger] self.rows@[j]).wf(),
            decreases n - i,
        {
            if !self.rows[i].is_wf() {
                return false;
            }
            i = i + 1;
        }
        true
    }

    /// The commands that redraw the region.
    pub fn render(&self) -> (commands: Vec<Command<T>>)
        requires
            self.refreshable(),
        ensures
            shown(commands@) == redraw(self.rows@, self.first_row as int, self.area),
    {
        let mut commands: Vec<Command<T>> = Vec::new();
        let n = self.rows.len();
        let first = self.first_row as usize;
        let area = self.area;
        proof {
            assert(shown(commands@) =~= Seq::<Shown<T>>::empty());
        }
        if first >= n {
            return commands;
        }
        let mut y: u32 = area.y as u32;
        let mut i = first;
        let ghost all = rows_lines(self.rows@, first as int, area, area.y as int);
        proof {
            assert(shown(commands@) + all =~= all);
        }
        while i < n
            invariant
                first <= i <= n,
                n == self.rows@.len(),
                first == self.first_row,
                area == self.area,
                self.refreshable(),
                y == area.y + (i - first),
                all == rows_lines(self.rows@, first as int, area, area.y as int),
                shown(commands@) + rows_lines(self.rows@, i as int, area, y as int) == all,
            decreases n - i,
        {
            let ghost before = shown(commands@);
            let ghost rest = rows_lines(self.rows@, i + 1, area, y + 1);
            paint_row(&self.rows[i], area, y, &mut commands);
            proof {
                let line = row_line(self.rows@[i as int], area, y as int);
                assert(before + (line + rest) =~= (before + line) + rest);
            }
            y = y + 1;
            i = i + 1;
        }
        let ghost lines = shown(commands@);
        let end = area.y as u32 + area.height as u32;
        let ghost blank = blank_lines::<T>(area, y as int);
        proof {
            assert(lines =~= all);
            assert(lines + blank_lines::<T>(area, y as int) == lines + blank);
        }
        while y < end
            invariant
                end == area.y + area.height,
                shown(commands@) + blank_lines::<T>(area, y as int) == lines + blank,
            decreases end - y,
        {
            let ghost before = shown(commands@);
            let ghost rest = blank_lines::<T>(area, y + 1);
            emit(&mut commands, Command::MoveTo { x: area.x as u32, y: y });
            emit(&mut commands, Command::Plain { text: blanks(area.width as usize) });
            proof {
                let pair = seq![
                    Shown::<T>::MoveTo { x: area.x as u32, y: y },
                    Shown::<T>::Plain { text: spaces(area.width as nat) },
                ];
                assert(shown(commands@) =~= before + pair);
                assert(before + (pair + rest) =~= (before + pair) + rest);
            }
            y = y + 1;
        }
        proof {
            assert(shown(commands@) + blank_lines::<T>(area, y as int) =~= shown(commands@));
        }
        emit(&mut commands, Command::Flush);
        proof {
            assert(shown(commands@) =~= lines + blank + seq![Shown::Flush]);
        }
        commands
    }

    /// Queues the commands that redraw the region.
    pub fn refresh(&mut self)
        requires
            old(self).refreshable(),
        ensures
            final(self).area == old(self).area,
            final(self).rows == old(self).rows,
            final(self).first_row == old(self).first_row,
            final(self).queued() == old(self).queued() + redraw(
                old(self).rows@,
                old(self).first_row as int,
                old(self).area,
            ),
    {
        let mut commands = self.render();
        let ghost before = self.out@;
        let ghost added = commands@;
        self.out.append(&mut commands);
        proof {
            assert(shown(before + added) =~= shown(before) + shown(added));
        }
    }
}

/// Adds to `commands` what draws `row` on line `y` of the screen.
pub fn paint_row<T>(row: &Row<T>, area: Rect, y: u32, commands: &mut Vec<Command<T>>) where
    T: PartialEq + Copy,

    requires
        row.wf(),
    ensures
        shown(final(commands)@) == shown(old(commands)@) + row_line(*row, area, y as int),
{
    let ghost before = shown(commands@);
    let ghost width = area.width as int;
    emit(commands, Command::MoveTo { x: area.x as u32, y: y });
    let ghost moved = shown(commands@);
    let mut it = row.iter_width(area.width);
    let mut more = true;
    proof {
        assert(moved + row_prints(*row, width, 0, 0) == moved + row_prints(*row, width, 0, 0));
    }
    while more
        invariant
            it.inv(),
            it.row == row,
            it.width == area.width,
            width == area.width,
            more || it.cur >= row.runs@.len() || it.graphemes >= it.width,
            shown(commands@) + row_prints(*row, width, it.cur as int, it.graphemes as int) == moved
                + row_prints(*row, width, 0, 0),
        decreases row.runs@.len() - it.cur + if more { 1int } else { 0int },
    {
        let ghost so_far = shown(commands@);
        let ghost cur = it.cur as int;
        let ghost graphemes = it.graphemes as int;
        match it.next() {
            Some((text, style)) => {
                emit(commands, Command::Print { text: text.to_owned(), style: *style });
                proof {
                    let here = seq![Shown::Print { text: text.spec_bytes(), style: *style }];
                    let rest = row_prints(*row, width, it.cur as int, it.graphemes as int);
                    assert(row_prints(*row, width, cur, graphemes) == here + rest);
                    assert(so_far + (here + rest) =~= (so_far + here) + rest);
                }
            },
            None => {
                more = false;
            },
        }
    }
    proof {
        assert(row_prints(*row, width, it.cur as int, it.graphemes as int) =~= Seq::<
            Shown<T>,
        >::empty());
        assert(shown(commands@) =~= moved + row_prints(*row, width, 0, 0));
    }
    let count = count_graphemes(row.text.as_str());
    proof {
        encode_utf8_decode_utf8(row.text@);
    }
    if count < area.width as usize {
        emit(commands, Command::Plain { text: blanks(area.width as usize - count) });
    }
    proof {
        assert(shown(commands@) =~= before + row_line(*row, area, y as int));
    }
}

/// The number of fresh rows that go above `rows` rows to fill a region of
/// `height` lines.
pub open spec fn padding(rows: int, height: int) -> int {
    if rows < height {
        height - rows
    } else {
        0
    }
}

/// The text of the prompt that is shown when a screenful has scrolled by.
pub open spec fn more_prompt() -> Seq<char> {
    "[more]"@
}

/// A buffer that wraps the text printed to it into the lines of its region,
/// scrolls, and keeps the text as it was printed for wrapping it anew.
#[derive(Debug)]
pub struct WrapBuffer<T> where T: PartialEq {
    /// The wrapped rows, ready to be shown.
    pub termbuf: TermBuffer<T>,
    /// The text as printed, one row for each line that a line feed ended.
    pub lines: Vec<Row<T>>,
    /// The number of lines kept in sight from one screenful to the next.
    pub more_context: u16,
    /// The number of lines scrolled since the last prompt.
    pub more_lines: u16,
}

impl<T> WrapBuffer<T> where T: PartialEq + Default + Copy {
    /// What holds of every buffer: the rows shown are in order, and the
    /// lines kept are well formed.
    pub open spec fn inv(&self) -> bool {
        &&& self.termbuf.inv()
        &&& forall|i: int| 0 <= i < self.lines@.len() ==> (#[trigger] self.lines@[i]).wf()
    }

    /// Whether the next scroll brings up the prompt: the context fits in
    /// the region, and with one more line scrolled the lines scrolled and
    /// the context no longer do.
    pub open spec fn prompt_due(&self) -> bool {
        &&& self.more_context <= self.termbuf.area.height
        &&& self.more_lines + 1 + self.more_context > self.termbuf.area.height
    }

    /// What scrolling queues first: the scroll, followed by the commands
    /// that redraw the scrolled region for a terminal that cannot scroll.
    pub open spec fn scroll_commands(&self) -> Seq<Shown<T>> {
        let rows = self.termbuf.rows@;
        let first = self.termbuf.first_row + 1;
        let area = self.termbuf.area;
        let every_row_wf = forall|i: int| first <= i < rows.len() ==> (#[trigger] rows[i]).wf();
        let numbered = first < rows.len() ==> area.y + rows.len() - first <= u32::MAX;
        if every_row_wf && numbered {
            seq![Shown::ScrollUp { fallback: Some(redraw(rows, first, area).len() as usize) }]
                + redraw(rows, first, area)
        } else {
            seq![Shown::ScrollUp { fallback: None }]
        }
    }

    /// `after` is this buffer scrolled up by one line.
    ///
    /// The first visible row is the next one, and the scroll is queued.
    /// Where the context fits in the region, one more line counts as
    /// scrolled; when the prompt is due, the count starts again, and the
    /// prompt is written on the last line, a key is waited for, and the
    /// line is erased.
    pub open spec fn scrolled(&self, after: WrapBuffer<T>) -> bool {
        let height = self.termbuf.area.height;
        &&& after.lines == self.lines
        &&& after.more_context == self.more_context
        &&& after.more_lines == if self.more_context <= height {
            if self.prompt_due() {
                0
            } else {
                self.more_lines + 1
            }
        } else {
            self.more_lines as int
        }
        &&& if self.prompt_due() {
            exists|a: TermBuffer<T>, b: TermBuffer<T>, c: TermBuffer<T>, plain: T|
                {
                    &&& call_ensures(T::default, (), plain)
                    &&& self.termbuf.moved(a, self.termbuf.first_row + 1, self.scroll_commands())
                    &&& #[trigger] a.written(b, 0, (height - 1) as u16, more_prompt(), plain)
                    &&& b.moved(c, b.first_row as int, seq![Shown::WaitForKey])
                    &&& #[trigger] c.erased(after.termbuf, 0, (height - 1) as u16)
                }
        } else {
            self.termbuf.moved(after.termbuf, self.termbuf.first_row + 1, self.scroll_commands())
        }
    }

    /// `after` is this buffer with `text` written on its last line at
    /// column `column` in the style `style`.
    pub open spec fn put(&self, after: WrapBuffer<T>, text: Seq<u8>, column: u16, style: T) -> bool {
        &&& after.lines == self.lines
        &&& after.more_context == self.more_context
        &&& after.more_lines == self.more_lines
        &&& self.termbuf.written(
            after.termbuf,
            column,
            (self.termbuf.area.height - 1) as u16,
            decode_utf8(text),
            style,
        )
    }

    /// `after` is this buffer with the segment `text` placed on its last
    /// line at column `column`.
    ///
    /// The first segment of a text goes behind what is on the last line;
    /// for every later one and for an empty one the buffer scrolls first.
    pub open spec fn placed(
        &self,
        after: WrapBuffer<T>,
        text: Seq<u8>,
        column: u16,
        first: bool,
        style: T,
    ) -> bool {
        exists|a: WrapBuffer<T>|
            {
                &&& if !first || text.len() == 0 {
                    self.scrolled(a)
                } else {
                    a == *self
                }
                &&& #[trigger] a.put(after, text, column, style)
            }
    }

    /// `after` is this buffer with the segments placed that the text `s`
    /// gives from offset `pos` on, with `cur` grapheme clusters on the line
    /// already; the next segment goes to column `column`. No more than
    /// `fuel` segments are looked at.
    pub open spec fn laid_out(
        &self,
        after: WrapBuffer<T>,
        s: Seq<u8>,
        pos: int,
        cur: int,
        column: u16,
        first: bool,
        style: T,
        fuel: nat,
    ) -> bool
        decreases fuel,
    {
        if fuel == 0 || pos >= s.len() {
            after == *self
        } else {
            let piece = step(s, pos, self.termbuf.area.width as int, cur);
            exists|mid: WrapBuffer<T>| #[trigger]
                self.placed(mid, s.subrange(piece.start, piece.end), column, first, style)
                    && mid.laid_out(
                    after,
                    s,
                    piece.pos,
                    piece.cur_width,
                    0,
                    false,
                    style,
                    (fuel - 1) as nat,
                )
        }
    }

    /// The number of grapheme clusters on the last line of the region,
    /// which is where wrapped text goes on; zero where the buffer has no row
    /// there yet.
    pub open spec fn line_width(&self) -> int {
        let at = self.termbuf.first_row + self.termbuf.area.height - 1;
        if 0 <= at < self.termbuf.rows@.len() {
            clusters(self.termbuf.rows@[at].bytes()).len() as int
        } else {
            0
        }
    }

    /// The buffer has room to print a text of `len` bytes: the region has
    /// a line, and the rows that the text can take can be numbered.
    pub open spec fn has_room(&self, len: nat) -> bool {
        &&& self.termbuf.area.height > 0
        &&& self.termbuf.first_row + self.termbuf.area.height + 2 * len + 2 < u32::MAX
    }

    /// `after` is this buffer with the text `s` wrapped into it: its
    /// segments for the width of the region, the first of which goes behind
    /// what is on the last row, are placed one after the other.
    pub open spec fn wrapped(&self, after: WrapBuffer<T>, s: Seq<u8>, style: T) -> bool {
        self.laid_out(
            after,
            s,
            0,
            self.line_width(),
            (self.line_width() % 0x1_0000) as u16,
            true,
            style,
            2 * s.len() + 2,
        )
    }

    /// Whether text printed next starts a line of its own: nothing has been
    /// printed, or the last line ended with a line feed.
    pub open spec fn starts_line(&self) -> bool {
        self.lines@.len() == 0 || ends_line(self.lines@.last().bytes())
    }

    /// `lines` are the lines of this buffer with the text `s` added: as a
    /// new last line where text starts a line of its own, and else at the
    /// end of the last line. The lines before the last are as they were.
    pub open spec fn lines_with(&self, lines: Seq<Row<T>>, s: Seq<char>) -> bool {
        &&& lines.len() == self.lines@.len() + if self.starts_line() {
            1int
        } else {
            0int
        }
        &&& forall|i: int| 0 <= i < lines.len() - 1 ==> #[trigger] lines[i] == self.lines@[i]
        &&& lines.last().text@ == if self.starts_line() {
            s
        } else {
            self.lines@.last().text@ + s
        }
    }

    /// The number of lines scrolled since the last prompt after one more
    /// scroll: none where the prompt comes up, one more where the context
    /// fits in the region, and else as many as before.
    pub open spec fn lines_scrolled(&self) -> int {
        if self.more_context <= self.termbuf.area.height {
            if self.prompt_due() {
                0
            } else {
                self.more_lines + 1
            }
        } else {
            self.more_lines as int
        }
    }

    /// `after` is this buffer with the text `s` added to the lines kept: to
    /// the last line, or to a new one where the last line ended with a line
    /// feed or there was none.
    pub open spec fn logged(&self, after: WrapBuffer<T>, s: Seq<char>, style: T) -> bool {
        let starts_line = self.lines@.len() == 0 || ends_line(self.lines@.last().bytes());
        &&& after.termbuf == self.termbuf
        &&& after.more_context == self.more_context
        &&& after.more_lines == self.more_lines
        &&& after.lines@.len() == self.lines@.len() + if starts_line {
            1int
        } else {
            0int
        }
        &&& forall|i: int|
            0 <= i < after.lines@.len() - 1 ==> #[trigger] after.lines@[i] == self.lines@[i]
        &&& exists|base: Row<T>|
            {
                &&& if starts_line {
                    base.fresh()
                } else {
                    base == self.lines@.last()
                }
                &&& #[trigger] base.appended_as(after.lines@.last(), s, style)
            }
    }

    /// `after` is this buffer with the text `s` printed: added to the lines
    /// kept, and wrapped into the rows shown.
    pub open spec fn printed(&self, after: WrapBuffer<T>, s: Seq<char>, style: T) -> bool {
        exists|mid: WrapBuffer<T>| #[trigger]
            self.logged(mid, s, style) && mid.wrapped(after, encode_utf8(s), style)
    }

    /// `after` is this buffer with its rows made anew from the lines kept.
    ///
    /// The rows are those that show the lines wrapped at the width of the
    /// region, below as many fresh rows as it takes to fill the region. The
    /// last row is on the last line of the region, and the region is
    /// redrawn if it can be.
    pub open spec fn rewrapped(&self, after: WrapBuffer<T>) -> bool {
        let area = self.termbuf.area;
        &&& after.lines == self.lines
        &&& after.more_context == self.more_context
        &&& after.more_lines == self.more_lines
        &&& after.termbuf.area == area
        &&& exists|body: Seq<Row<T>>|
            {
                let pad = padding(body.len() as int, area.height as int);
                &&& #[trigger] reflowed(self.lines@, area.width as int, body)
                &&& after.termbuf.rows@.len() == pad + body.len()
                &&& after.termbuf.rows@.skip(pad) == body
                &&& forall|i: int| 0 <= i < pad ==> (#[trigger] after.termbuf.rows@[i]).fresh()
            }
        &&& after.termbuf.first_row == (after.termbuf.rows@.len() - area.height) % 0x1_0000_0000
        &&& after.termbuf.queued() == self.termbuf.queued() + if after.termbuf.refreshable() {
            redraw(after.termbuf.rows@, after.termbuf.first_row as int, area)
        } else {
            seq![]
        }
    }

    /// `after` is this buffer with its queue emptied.
    pub open spec fn emptied(&self, after: WrapBuffer<T>) -> bool {
        &&& after.lines == self.lines
        &&& after.more_context == self.more_context
        &&& after.more_lines == self.more_lines
        &&& self.termbuf.emptied(after.termbuf)
    }

    /// A buffer for the region `area`, with nothing printed, that keeps one
    /// line of context.
    pub fn new(area: Rect) -> (buffer: WrapBuffer<T>)
        ensures
            buffer.inv(),
            buffer.termbuf.area == area,
            buffer.termbuf.rows@.len() == 0,
            buffer.termbuf.first_row == 0,
            buffer.termbuf.out@.len() == 0,
            buffer.lines@.len() == 0,
            buffer.more_context == 1,
            buffer.more_lines == 0,
    {
        WrapBuffer { termbuf: TermBuffer::new(area), lines: Vec::new(), more_context: 1, more_lines: 0 }
    }

    /// Drops all that was printed.
    pub fn clear(&mut self)
        ensures
            final(self).inv(),
            final(self).lines@.len() == 0,
            final(self).termbuf.rows@.len() == 0,
            final(self).termbuf.first_row == 0,
            final(self).termbuf.area == old(self).termbuf.area,
            final(self).termbuf.out == old(self).termbuf.out,
            final(self).more_context == old(self).more_context,
            final(self).more_lines == old(self).more_lines,
    {
        self.lines = Vec::new();
        self.termbuf.clear();
    }

    /// Hands out the commands that wait and empties the queue.
    pub fn take_commands(&mut self) -> (commands: Vec<Command<T>>)
        ensures
            commands@ == old(self).termbuf.out@,
            old(self).emptied(*final(self)),
            old(self).inv() ==> final(self).inv(),
    {
        self.termbuf.take_commands()
    }

    /// Changes the region without redrawing it, as `TermBuffer::resize`
    /// does.
    pub fn resize(&mut self, area: Rect, keep_last: bool)
        requires
            keep_last ==> old(self).termbuf.first_row + area.height <= u32::MAX,
        ensures
            final(self).lines == old(self).lines,
            final(self).more_context == old(self).more_context,
            final(self).more_lines == old(self).more_lines,
            final(self).termbuf.area == area,
            final(self).termbuf.rows == old(self).termbuf.rows,
            final(self).termbuf.out == old(self).termbuf.out,
            final(self).termbuf.first_row == if keep_last {
                let moved = old(self).termbuf.first_row + area.height;
                if moved >= old(self).termbuf.area.height {
                    moved - old(self).termbuf.area.height
                } else {
                    0
                }
            } else {
                old(self).termbuf.first_row as int
            },
    {
        self.termbuf.resize(area, keep_last);
    }

    /// Queues the commands that redraw the region.
    pub fn refresh(&mut self)
        requires
            old(self).termbuf.refreshable(),
        ensures
            final(self).lines == old(self).lines,
            final(self).more_context == old(self).more_context,
            final(self).more_lines == old(self).more_lines,
            final(self).termbuf.area == old(self).termbuf.area,
            final(self).termbuf.rows == old(self).termbuf.rows,
            final(self).termbuf.first_row == old(self).termbuf.first_row,
            final(self).termbuf.queued() == old(self).termbuf.queued() + redraw(
                old(self).termbuf.rows@,
                old(self).termbuf.first_row as int,
                old(self).termbuf.area,
            ),
    {
        self.termbuf.refresh();
    }

    /// Sets the number of lines that stay in sight when a screenful has
    /// scrolled by and the prompt comes up.
    pub fn set_more_prompt(&mut self, context_lines: u16)
        ensures
            final(self).more_context == context_lines,
            final(self).more_lines == old(self).more_lines,
            final(self).termbuf == old(self).termbuf,
            final(self).lines == old(self).lines,
    {
        self.more_context = context_lines;
    }

    /// Starts the count of scrolled lines again.
    pub fn reset_more_counter(&mut self)
        ensures
            final(self).more_lines == 0,
            final(self).more_context == old(self).more_context,
            final(self).termbuf == old(self).termbuf,
            final(self).lines == old(self).lines,
    {
        self.more_lines = 0;
    }

    /// Whether the last line printed was ended by a line feed, or nothing
    /// has been printed.
    pub fn last_line_terminated(&self) -> (ended: bool)
        ensures
            ended == (self.lines@.len() == 0 || ends_line(self.lines@.last().bytes())),
    {
        let l = self.lines.len();
        if l == 0 {
            return true;
        }
        let bytes = self.lines[l - 1].text.as_str().as_bytes();
        let n = bytes.len();
        n > 0 && bytes[n - 1] == 0x0A
    }

    /// Scrolls the region up by one line, and brings up the prompt when a
    /// screenful has scrolled by.
    pub fn scroll_up(&mut self)
        requires
            old(self).inv(),
            old(self).termbuf.first_row + old(self).termbuf.area.height < u32::MAX,
            old(self).termbuf.area.height > 0 || old(self).more_context > 0,
        ensures
            final(self).inv(),
            old(self).scrolled(*final(self)),
            final(self).more_lines == old(self).lines_scrolled(),
            final(self).termbuf.first_row == old(self).termbuf.first_row + 1,
            final(self).termbuf.area == old(self).termbuf.area,
            final(self).more_context == old(self).more_context,
            final(self).lines == old(self).lines,
            !old(self).prompt_due() ==> final(self).termbuf.rows@ == old(self).termbuf.rows@,
    {
        let ghost start = self.termbuf;
        let height = self.termbuf.area.height;
        self.termbuf.first_row = self.termbuf.first_row + 1;
        if self.termbuf.can_refresh() {
            let mut fallback = self.termbuf.render();
            emit(&mut self.termbuf.out, Command::ScrollUp { fallback: Some(fallback.len()) });
            let ghost before = self.termbuf.out@;
            let ghost added = fallback@;
            self.termbuf.out.append(&mut fallback);
            proof {
                assert(shown(before + added) =~= shown(before) + shown(added));
                assert(shown(added).len() == added.len());
                assert(self.termbuf.queued() =~= start.queued() + old(self).scroll_commands());
            }
        } else {
            emit(&mut self.termbuf.out, Command::ScrollUp { fallback: None });
            proof {
                assert(self.termbuf.queued() =~= start.queued() + old(self).scroll_commands());
            }
        }
        let ghost a = self.termbuf;
        assert(start.moved(a, start.first_row + 1, old(self).scroll_commands()));
        if self.more_context <= height {
            let seen: u32 = self.more_lines as u32 + 1;
            if seen + self.more_context as u32 > height as u32 {
                self.more_lines = 0;
                let plain: T = Default::default();
                self.termbuf.put_at(0, height - 1, "[more]", plain);
                let ghost b = self.termbuf;
                emit(&mut self.termbuf.out, Command::WaitForKey);
                let ghost c = self.termbuf;
                proof {
                    assert(c.queued() =~= b.queued() + seq![Shown::WaitForKey]);
                    assert(b.moved(c, b.first_row as int, seq![Shown::WaitForKey]));
                }
                self.termbuf.erase_line_to_end_at(0, height - 1);
                proof {
                    assert(a.written(b, 0, (height - 1) as u16, more_prompt(), plain));
                    assert(c.erased(self.termbuf, 0, (height - 1) as u16));
                }
            } else {
                self.more_lines = seen as u16;
            }
        }
    }

    /// Whether the buffer has room to print a text of `len` bytes.
    pub fn has_room_for(&self, len: usize) -> (ok: bool)
        ensures
            ok == self.has_room(len as nat),
    {
        let height = self.termbuf.area.height;
        let used: u64 = self.termbuf.first_row as u64 + height as u64 + 2;
        height > 0 && len <= (u32::MAX as usize) && used + 2 * (len as u64) < u32::MAX as u64
    }

    /// Whether the buffer has room to print `s`.
    pub fn can_print(&self, s: &str) -> (ok: bool)
        ensures
            ok == self.has_room(s.spec_bytes().len()),
    {
        self.has_room_for(byte_len(s))
    }

    /// Wraps `s` into the rows shown, scrolling as lines fill up.
    pub fn wrap_append(&mut self, s: &str, style: &T)
        requires
            old(self).inv(),
            old(self).has_room(s.spec_bytes().len()),
        ensures
            final(self).inv(),
            old(self).wrapped(*final(self), s.spec_bytes(), *style),
            final(self).lines == old(self).lines,
            final(self).more_context == old(self).more_context,
            final(self).termbuf.area == old(self).termbuf.area,
            old(self).termbuf.first_row <= final(self).termbuf.first_row <= old(
                self,
            ).termbuf.first_row + 2 * s.spec_bytes().len() + 2,
    {
        let mut width_row: usize = 0;
        let height = self.termbuf.area.height;
        let last = self.termbuf.first_row as usize + (height - 1) as usize;
        if last < self.termbuf.rows.len() {
            width_row = count_graphemes(self.termbuf.rows[last].text.as_str());
            proof {
                encode_utf8_decode_utf8(self.termbuf.rows@[last as int].text@);
            }
        }
        let len = byte_len(s);
        let mut it = wrap_to_width_offset(s, self.termbuf.area.width as usize, width_row);
        let mut column: u16 = (width_row % 0x1_0000) as u16;
        let mut first = true;
        let mut more = true;
        let ghost sb = s.spec_bytes();
        let ghost fuel0: nat = (2 * sb.len() + 2) as nat;
        let ghost mut fuel: nat = fuel0;
        let ghost offset = width_row as int;
        let ghost column0 = column;
        let ghost first_row0 = self.termbuf.first_row as int;
        while more
            invariant
                self.inv(),
                self.termbuf.area == old(self).termbuf.area,
                self.lines == old(self).lines,
                self.more_context == old(self).more_context,
                height == self.termbuf.area.height,
                height > 0,
                it.inv(),
                it.s == s,
                it.width == self.termbuf.area.width,
                sb == s.spec_bytes(),
                len == sb.len(),
                fuel0 == 2 * sb.len() + 2,
                fuel <= fuel0,
                fuel >= it.remaining() + 1,
                it.remaining() >= 0,
                first_row0 + height + 2 * sb.len() + 2 < u32::MAX,
                first_row0 <= self.termbuf.first_row <= first_row0 + (fuel0 - fuel),
                more || it.pos >= sb.len(),
                forall|f: WrapBuffer<T>| #[trigger]
                    self.laid_out(
                        f,
                        sb,
                        it.pos as int,
                        it.cur_width as int,
                        column,
                        first,
                        *style,
                        fuel,
                    ) ==> old(self).laid_out(f, sb, 0, offset, column0, true, *style, fuel0),
            decreases it.remaining() + if more { 1int } else { 0int },
        {
            let ghost before = *self;
            let ghost pos = it.pos as int;
            let ghost cur = it.cur_width as int;
            match it.next() {
                None => {
                    more = false;
                },
                Some((_, row_text)) => {
                    let empty = byte_len(row_text) == 0;
                    if !first || empty {
                        self.scroll_up();
                    }
                    let ghost a = *self;
                    self.termbuf.put_at(column, height - 1, row_text, *style);
                    proof {
                        let tb = row_text.spec_bytes();
                        encode_utf8_decode_utf8(row_text@);
                        assert(a.put(*self, tb, column, *style));
                        assert(before.placed(*self, tb, column, first, *style));
                        let piece = step(sb, pos, before.termbuf.area.width as int, cur);
                        let next_fuel = (fuel - 1) as nat;
                        assert forall|f: WrapBuffer<T>| #[trigger]
                            self.laid_out(
                                f,
                                sb,
                                it.pos as int,
                                it.cur_width as int,
                                0,
                                false,
                                *style,
                                next_fuel,
                            ) implies old(self).laid_out(
                            f,
                            sb,
                            0,
                            offset,
                            column0,
                            true,
                            *style,
                            fuel0,
                        ) by {
                            assert(before.laid_out(f, sb, pos, cur, column, first, *style, fuel));
                        }
                        fuel = next_fuel;
                    }
                    column = 0;
                    first = false;
                },
            }
        }
        proof {
            assert(self.laid_out(
                *self,
                sb,
                it.pos as int,
                it.cur_width as int,
                column,
                first,
                *style,
                fuel,
            ));
        }
    }

    /// Makes the rows anew from the lines kept, for a region that has
    /// changed its width, and redraws the region.
    pub fn rewrap(&mut self)
        requires
            old(self).inv(),
        ensures
            final(self).inv(),
            old(self).rewrapped(*final(self)),
    {
        let mut rows: Vec<Row<T>> = Vec::new();
        let width = self.termbuf.area.width as usize;
        let n = self.lines.len();
        let mut i: usize = 0;
        proof {
            assert(self.lines@.take(0) =~= Seq::<Row<T>>::empty());
        }
        while i < n
            invariant
                *self == *old(self),
                self.inv(),
                n == self.lines@.len(),
                i <= n,
                width == self.termbuf.area.width,
                reflowed(self.lines@.take(i as int), width as int, rows@),
                forall|j: int| 0 <= j < rows@.len() ==> (#[trigger] rows@[j]).wf(),
            decreases n - i,
        {
            let ghost before = rows@;
            wrap_line(&self.lines[i], width, &mut rows);
            proof {
                let upto = self.lines@.take(i + 1);
                let line = self.lines@[i as int];
                let parts = segments(line.bytes(), width as int, 0);
                assert(upto.last() == line);
                assert(upto.drop_last() =~= self.lines@.take(i as int));
                assert(rows@.take(rows@.len() - parts.len()) =~= before);
                assert forall|j: int| 0 <= j < rows@.len() implies (#[trigger] rows@[j]).wf() by {
                    if j >= before.len() {
                        assert(cut_of(line, parts[j - before.len()], rows@[before.len() + (j
                            - before.len())]));
                    } else {
                        assert(rows@[j] == before[j]);
                    }
                }
            }
            i = i + 1;
        }
        let ghost body = rows@;
        proof {
            assert(self.lines@.take(n as int) =~= self.lines@);
        }
        let height = self.termbuf.area.height as usize;
        let body_len = rows.len();
        if body_len < height {
            let mut padded: Vec<Row<T>> = Vec::new();
            let pad = height - body_len;
            let mut k: usize = 0;
            while k < pad
                invariant
                    k <= pad,
                    padded@.len() == k,
                    forall|j: int| 0 <= j < k ==> (#[trigger] padded@[j]).fresh() && padded@[j].wf(),
                decreases pad - k,
            {
                padded.push(Row::new());
                k = k + 1;
            }
            padded.append(&mut rows);
            rows = padded;
        }
        let total = rows.len();
        self.termbuf.first_row = ((total - height) as u64 % 0x1_0000_0000) as u32;
        self.termbuf.rows = rows;
        let ghost set = self.termbuf;
        proof {
            assert(self.termbuf.inv()) by {
                assert forall|j: int| 0 <= j < self.termbuf.rows@.len() implies (
                #[trigger] self.termbuf.rows@[j]).ordered() by {
                    assert(self.termbuf.rows@[j].wf());
                }
            }
        }
        if self.termbuf.can_refresh() {
            self.termbuf.refresh();
        } else {
            proof {
                assert(self.termbuf.queued() =~= old(self).termbuf.queued() + Seq::<
                    Shown<T>,
                >::empty());
            }
        }
        proof {
            let pad = padding(body.len() as int, height as int);
            assert(self.termbuf.rows@.len() == pad + body.len());
            assert(reflowed(old(self).lines@, width as int, body));
            assert(self.termbuf.rows@.skip(pad) =~= body);
        }
    }

    /// Prints `s` in the style `style`: adds it to the lines kept and wraps
    /// it into the rows shown.
    pub fn print_style(&mut self, s: &str, style: &T)
        requires
            old(self).inv(),
            old(self).has_room(s.spec_bytes().len()),
        ensures
            final(self).inv(),
            old(self).printed(*final(self), s@, *style),
            old(self).lines_with(final(self).lines@, s@),
            final(self).more_context == old(self).more_context,
            final(self).termbuf.area == old(self).termbuf.area,
            old(self).termbuf.first_row <= final(self).termbuf.first_row <= old(
                self,
            ).termbuf.first_row + 2 * s.spec_bytes().len() + 2,
    {
        if self.last_line_terminated() {
            self.lines.push(Row::new());
        }
        let n = self.lines.len();
        let ghost base = self.lines@[n - 1];
        self.lines[n - 1].append(s, style);
        let ghost mid = *self;
        proof {
            assert(Seq::<char>::empty() + s@ =~= s@);
            assert(base.appended_as(mid.lines@.last(), s@, *style));
            assert(old(self).logged(mid, s@, *style));
        }
        self.wrap_append(s, style);
    }

    /// Prints `s` in a default style.
    pub fn print(&mut self, s: &str)
        requires
            old(self).inv(),
            old(self).has_room(s.spec_bytes().len()),
        ensures
            final(self).inv(),
            exists|plain: T|
                call_ensures(T::default, (), plain) && #[trigger] old(self).printed(
                    *final(self),
                    s@,
                    plain,
                ),
            old(self).lines_with(final(self).lines@, s@),
            final(self).more_context == old(self).more_context,
            final(self).termbuf.area == old(self).termbuf.area,
            old(self).termbuf.first_row <= final(self).termbuf.first_row <= old(
                self,
            ).termbuf.first_row + 2 * s.spec_bytes().len() + 2,
    {
        let plain: T = Default::default();
        self.print_style(s, &plain);
    }
}

/// Whether text ends with a line feed.
pub open spec fn ends_line(bytes: Seq<u8>) -> bool {
    bytes.len() > 0 && bytes.last() == 0x0Au8
}

} // verus!

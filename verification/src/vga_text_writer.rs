//! The cursor of the kernel's text console. The writer decides where each character
//! goes, when a line breaks and when the screen scrolls; it hands the drawing back as a
//! list of text operations on a text buffer of a given number of columns and rows.
use vstd::prelude::*;

verus! {

/// Spaces that a tab stands for.
pub const TAB_SIZE: usize = 4;

/// One drawing operation on the text buffer.
#[derive(Clone, Copy, Debug, PartialEq, Eq, Structural)]
pub enum TextAction {
    /// Draw `byte` in the cell at `column` and `row`, in `text` on `background`.
    PutChar { column: usize, row: usize, text: u32, background: u32, byte: u8 },
    /// Move the text up by `lines` rows and fill the rows that come free with
    /// `background`.
    Scroll { lines: usize, background: u32 },
}

/// What a writer holds: its cursor, its colors and whether it scrolls.
#[derive(Clone, Copy, Debug, PartialEq, Eq, Structural)]
pub struct CursorState {
    pub column: usize,
    pub row: usize,
    pub text: u32,
    pub background: u32,
    pub scrolling: bool,
}

/// The cursor moves to the start of the next row. On the last row it scrolls the screen
/// by one row and stays, or, without scrolling, goes back to the top row.
pub open spec fn line_break(w: CursorState, rows: usize) -> (CursorState, Seq<TextAction>) {
    if w.row >= rows - 1 {
        if w.scrolling {
            (
                CursorState { column: 0, ..w },
                seq![TextAction::Scroll { lines: 1, background: w.background }],
            )
        } else {
            (CursorState { column: 0, row: 0, ..w }, seq![])
        }
    } else {
        (CursorState { column: 0, row: (w.row + 1) as usize, ..w }, seq![])
    }
}

/// A cursor past the last column breaks the line.
pub open spec fn wrap(w: CursorState, columns: usize, rows: usize) -> (
    CursorState,
    Seq<TextAction>,
) {
    if w.column >= columns {
        line_break(w, rows)
    } else {
        (w, seq![])
    }
}

/// A line break is only defined on a buffer with at least one row.
pub open spec fn wrap_defined(w: CursorState, columns: usize, rows: usize) -> bool {
    w.column >= columns ==> rows >= 1
}

/// Draws `byte` at the cursor, moves the cursor one column on and wraps.
pub open spec fn put(w: CursorState, byte: u8, columns: usize, rows: usize) -> (
    CursorState,
    Seq<TextAction>,
) {
    let drawn = TextAction::PutChar {
        column: w.column,
        row: w.row,
        text: w.text,
        background: w.background,
        byte,
    };
    let moved = CursorState { column: (w.column + 1) as usize, ..w };
    let wrapped = wrap(moved, columns, rows);
    (wrapped.0, seq![drawn] + wrapped.1)
}

/// `put` neither overflows the column nor breaks a line on a buffer without rows.
pub open spec fn put_defined(w: CursorState, columns: usize, rows: usize) -> bool {
    w.column < usize::MAX && (w.column + 1 >= columns ==> rows >= 1)
}

/// `n` spaces written one after the other.
pub open spec fn spaces(w: CursorState, n: nat, columns: usize, rows: usize) -> (
    CursorState,
    Seq<TextAction>,
)
    decreases n,
{
    if n == 0 {
        (w, seq![])
    } else {
        let before = spaces(w, (n - 1) as nat, columns, rows);
        let last = put(before.0, 32u8, columns, rows);
        (last.0, before.1 + last.1)
    }
}

/// Every one of `n` spaces is defined.
pub open spec fn spaces_defined(w: CursorState, n: nat, columns: usize, rows: usize) -> bool
    decreases n,
{
    n == 0 || (spaces_defined(w, (n - 1) as nat, columns, rows) && put_defined(
        spaces(w, (n - 1) as nat, columns, rows).0,
        columns,
        rows,
    ))
}

/// The byte that a character is drawn as: the low eight bits of its code point.
pub open spec fn char_byte(c: char) -> u8 {
    (c as u32) as u8
}

/// What writing `c` does: a tab writes `TAB_SIZE` spaces, a newline breaks the line,
/// any other character is drawn as its byte; after each the cursor wraps if it has
/// passed the last column.
pub open spec fn char_step(w: CursorState, c: char, columns: usize, rows: usize) -> (
    CursorState,
    Seq<TextAction>,
) {
    if c == '\t' {
        let s = spaces(w, TAB_SIZE as nat, columns, rows);
        let after = wrap(s.0, columns, rows);
        (after.0, s.1 + after.1)
    } else if c == '\n' {
        let b = line_break(w, rows);
        let after = wrap(b.0, columns, rows);
        (after.0, b.1 + after.1)
    } else {
        put(w, char_byte(c), columns, rows)
    }
}

/// Writing `c` neither overflows the column nor breaks a line on a buffer without rows.
pub open spec fn char_defined(w: CursorState, c: char, columns: usize, rows: usize) -> bool {
    if c == '\t' {
        spaces_defined(w, TAB_SIZE as nat, columns, rows) && wrap_defined(
            spaces(w, TAB_SIZE as nat, columns, rows).0,
            columns,
            rows,
        )
    } else if c == '\n' {
        rows >= 1 && wrap_defined(line_break(w, rows).0, columns, rows)
    } else {
        put_defined(w, columns, rows)
    }
}

/// What writing the characters `s` in order does.
pub open spec fn string_step(w: CursorState, s: Seq<char>, columns: usize, rows: usize) -> (
    CursorState,
    Seq<TextAction>,
)
    decreases s.len(),
{
    if s.len() == 0 {
        (w, seq![])
    } else {
        let before = string_step(w, s.drop_last(), columns, rows);
        let last = char_step(before.0, s.last(), columns, rows);
        (last.0, before.1 + last.1)
    }
}

/// Every character of `s` is defined where it is written.
pub open spec fn string_defined(w: CursorState, s: Seq<char>, columns: usize, rows: usize) -> bool
    decreases s.len(),
{
    s.len() == 0 || (string_defined(w, s.drop_last(), columns, rows) && char_defined(
        string_step(w, s.drop_last(), columns, rows).0,
        s.last(),
        columns,
        rows,
    ))
}

/// The kernel's text writer: a cursor over a text buffer, with the colors it writes in.
pub struct VGAWriter {
    column: usize,
    row: usize,
    pub default_text: u32,
    pub default_background: u32,
    scrolling: bool,
}

impl View for VGAWriter {
    type V = CursorState;

    closed spec fn view(&self) -> CursorState {
        CursorState {
            column: self.column,
            row: self.row,
            text: self.default_text,
            background: self.default_background,
            scrolling: self.scrolling,
        }
    }
}

impl VGAWriter {
    /// A writer at the top left corner.
    pub fn new(scrolling: bool, default_text: u32, default_background: u32) -> (w: Self)
        ensures
            w@ == (CursorState {
                column: 0,
                row: 0,
                text: default_text,
                background: default_background,
                scrolling,
            }),
    {
        Self { column: 0, row: 0, default_text, default_background, scrolling }
    }

    /// Moves the cursor to `row` and `column`.
    pub fn set_position(&mut self, row: usize, column: usize)
        ensures
            final(self)@ == (CursorState { row, column, ..old(self)@ }),
    {
        self.row = row;
        self.column = column;
    }

    /// The cursor as (row, column).
    pub fn get_position(&self) -> (r: (usize, usize))
        ensures
            r == (self@.row, self@.column),
    {
        (self.row, self.column)
    }

    /// Sets the color that text is written in.
    pub fn set_text_color(&mut self, color: u32)
        ensures
            final(self)@ == (CursorState { text: color, ..old(self)@ }),
    {
        self.default_text = color;
    }

    /// Sets the color that text is written on.
    pub fn set_background(&mut self, color: u32)
        ensures
            final(self)@ == (CursorState { background: color, ..old(self)@ }),
    {
        self.default_background = color;
    }

    /// Breaks the line, adding what it draws to `out`.
    fn new_line(&mut self, rows: usize, out: &mut Vec<TextAction>)
        requires
            rows >= 1,
        ensures
            final(self)@ == line_break(old(self)@, rows).0,
            final(out)@ == old(out)@ + line_break(old(self)@, rows).1,
    {
        self.column = 0;
        if self.row >= rows - 1 {
            if self.scrolling {
                out.push(TextAction::Scroll { lines: 1, background: self.default_background });
            } else {
                self.row = 0;
            }
        } else {
            self.row += 1;
        }
    }

    /// Breaks the line when the cursor has passed the last column.
    fn wrap_line(&mut self, columns: usize, rows: usize, out: &mut Vec<TextAction>)
        requires
            wrap_defined(old(self)@, columns, rows),
        ensures
            final(self)@ == wrap(old(self)@, columns, rows).0,
            final(out)@ == old(out)@ + wrap(old(self)@, columns, rows).1,
    {
        if self.column >= columns {
            self.new_line(rows, out);
        } else {
            assert(out@ == out@ + Seq::<TextAction>::empty());
        }
    }

    /// Draws `byte` at the cursor, moves one column on and wraps.
    fn put_byte(&mut self, byte: u8, columns: usize, rows: usize, out: &mut Vec<TextAction>)
        requires
            put_defined(old(self)@, columns, rows),
        ensures
            final(self)@ == put(old(self)@, byte, columns, rows).0,
            final(out)@ == old(out)@ + put(old(self)@, byte, columns, rows).1,
    {
        let ghost start = out@;
        let ghost w = self@;
        out.push(
            TextAction::PutChar {
                column: self.column,
                row: self.row,
                text: self.default_text,
                background: self.default_background,
                byte,
            },
        );
        self.column += 1;
        let ghost mid = out@;
        self.wrap_line(columns, rows, out);
        proof {
            let p = put(w, byte, columns, rows);
            assert(mid == start.push(p.1[0]));
            assert(out@ =~= start + p.1);
        }
    }

    /// Writes `c`, adding what it draws to `out`.
    fn write_char_into(&mut self, c: char, columns: usize, rows: usize, out: &mut Vec<TextAction>)
        requires
            char_defined(old(self)@, c, columns, rows),
        ensures
            final(self)@ == char_step(old(self)@, c, columns, rows).0,
            final(out)@ == old(out)@ + char_step(old(self)@, c, columns, rows).1,
    {
        let ghost w = self@;
        let ghost start = out@;
        if c == '\t' {
            let mut n: usize = 0;
            while n < TAB_SIZE
                invariant
                    n <= TAB_SIZE,
                    spaces_defined(w, TAB_SIZE as nat, columns, rows),
                    self@ == spaces(w, n as nat, columns, rows).0,
                    out@ == start + spaces(w, n as nat, columns, rows).1,
                decreases TAB_SIZE - n,
            {
                proof {
                    lemma_spaces_defined_prefix(w, n as nat, TAB_SIZE as nat, columns, rows);
                }
                self.put_byte(32u8, columns, rows, out);
                proof {
                    assert(out@ =~= start + spaces(w, (n + 1) as nat, columns, rows).1);
                }
                n += 1;
            }
            self.wrap_line(columns, rows, out);
            assert(out@ =~= start + char_step(w, c, columns, rows).1);
        } else if c == '\n' {
            self.new_line(rows, out);
            self.wrap_line(columns, rows, out);
            assert(out@ =~= start + char_step(w, c, columns, rows).1);
        } else {
            let byte = (c as u32) as u8;
            self.put_byte(byte, columns, rows, out);
        }
    }

    /// Writes `c` on a text buffer of `columns` by `rows` cells and returns what there
    /// is to draw, in order. A character past the last column, or a newline, moves the
    /// cursor to the next row; on the last row the screen scrolls by one row, or, when
    /// the writer does not scroll, the cursor goes back to the top row.
    pub fn write_char(&mut self, c: char, columns: usize, rows: usize) -> (actions: Vec<
        TextAction,
    >)
        requires
            char_defined(old(self)@, c, columns, rows),
        ensures
            (final(self)@, actions@) == char_step(old(self)@, c, columns, rows),
    {
        let mut out: Vec<TextAction> = Vec::new();
        self.write_char_into(c, columns, rows, &mut out);
        assert(out@ =~= char_step(old(self)@, c, columns, rows).1);
        out
    }

    /// Writes the characters of `string` in order, as `write_char` does, and returns
    /// what there is to draw.
    pub fn write_string(&mut self, string: &str, columns: usize, rows: usize) -> (actions: Vec<
        TextAction,
    >)
        requires
            string_defined(old(self)@, string@, columns, rows),
        ensures
            (final(self)@, actions@) == string_step(old(self)@, string@, columns, rows),
    {
        broadcast use vstd::string::axiom_spec_iter;

        let ghost w = self@;
        let mut out: Vec<TextAction> = Vec::new();
        for c in it: string.chars()
            invariant
                it.seq() == string@,
                string_defined(w, string@, columns, rows),
                (self@, out@) == string_step(w, string@.take(it.index()), columns, rows),
        {
            proof {
                lemma_string_defined_prefix(w, string@, it.index() + 1, columns, rows);
                assert(string@.take(it.index() + 1).drop_last() =~= string@.take(it.index()));
            }
            self.write_char_into(c, columns, rows, &mut out);
        }
        assert(string@.take(string@.len() as int) =~= string@);
        out
    }
}

/// Every prefix of a string whose characters are all defined has them all defined too.
proof fn lemma_string_defined_prefix(
    w: CursorState,
    s: Seq<char>,
    n: int,
    columns: usize,
    rows: usize,
)
    requires
        0 <= n <= s.len(),
        string_defined(w, s, columns, rows),
    ensures
        string_defined(w, s.take(n), columns, rows),
    decreases s.len(),
{
    if n == s.len() {
        assert(s.take(n) =~= s);
    } else {
        assert(s.take(n) =~= s.drop_last().take(n));
        lemma_string_defined_prefix(w, s.drop_last(), n, columns, rows);
    }
}

/// The first `n + 1` of `m` spaces are each defined where they are written.
proof fn lemma_spaces_defined_prefix(w: CursorState, n: nat, m: nat, columns: usize, rows: usize)
    requires
        n < m,
        spaces_defined(w, m, columns, rows),
    ensures
        spaces_defined(w, n + 1, columns, rows),
        put_defined(spaces(w, n, columns, rows).0, columns, rows),
    decreases m,
{
    if n + 1 < m {
        lemma_spaces_defined_prefix(w, n, (m - 1) as nat, columns, rows);
    }
}


/// Whether the cursor lies within a text buffer of `columns` by `rows` cells.
pub open spec fn on_screen(w: CursorState, columns: usize, rows: usize) -> bool {
    w.column < columns && w.row < rows
}

/// Whether every character that `actions` draw lies within the text buffer.
pub open spec fn draws_on_screen(actions: Seq<TextAction>, columns: usize, rows: usize) -> bool {
    forall|i: int|
        0 <= i < actions.len() ==> match #[trigger] actions[i] {
            TextAction::PutChar { column, row, .. } => column < columns && row < rows,
            TextAction::Scroll { .. } => true,
        }
}

proof fn lemma_line_break_on_screen(w: CursorState, columns: usize, rows: usize)
    requires
        w.row < rows,
        columns >= 1,
    ensures
        on_screen(line_break(w, rows).0, columns, rows),
        draws_on_screen(line_break(w, rows).1, columns, rows),
{
}

proof fn lemma_wrap_on_screen(w: CursorState, columns: usize, rows: usize)
    requires
        w.row < rows,
        w.column <= columns,
        columns >= 1,
    ensures
        on_screen(wrap(w, columns, rows).0, columns, rows),
        draws_on_screen(wrap(w, columns, rows).1, columns, rows),
{
    if w.column >= columns {
        lemma_line_break_on_screen(w, columns, rows);
    }
}

proof fn lemma_put_on_screen(w: CursorState, byte: u8, columns: usize, rows: usize)
    requires
        on_screen(w, columns, rows),
    ensures
        on_screen(put(w, byte, columns, rows).0, columns, rows),
        draws_on_screen(put(w, byte, columns, rows).1, columns, rows),
{
    let moved = CursorState { column: (w.column + 1) as usize, ..w };
    lemma_wrap_on_screen(moved, columns, rows);
    let acts = put(w, byte, columns, rows).1;
    assert forall|i: int| 0 <= i < acts.len() implies match #[trigger] acts[i] {
        TextAction::PutChar { column, row, .. } => column < columns && row < rows,
        TextAction::Scroll { .. } => true,
    } by {
        if i > 0 {
            assert(acts[i] == wrap(moved, columns, rows).1[i - 1]);
        }
    }
}

proof fn lemma_spaces_on_screen(w: CursorState, n: nat, columns: usize, rows: usize)
    requires
        on_screen(w, columns, rows),
    ensures
        on_screen(spaces(w, n, columns, rows).0, columns, rows),
        draws_on_screen(spaces(w, n, columns, rows).1, columns, rows),
    decreases n,
{
    if n > 0 {
        let before = spaces(w, (n - 1) as nat, columns, rows);
        lemma_spaces_on_screen(w, (n - 1) as nat, columns, rows);
        lemma_put_on_screen(before.0, 32u8, columns, rows);
        let last = put(before.0, 32u8, columns, rows);
        let acts = before.1 + last.1;
        assert forall|i: int| 0 <= i < acts.len() implies match #[trigger] acts[i] {
            TextAction::PutChar { column, row, .. } => column < columns && row < rows,
            TextAction::Scroll { .. } => true,
        } by {
            if i < before.1.len() {
                assert(acts[i] == before.1[i]);
            } else {
                assert(acts[i] == last.1[i - before.1.len()]);
            }
        }
    }
}

/// A cursor on the screen stays on it whatever character is written, and every
/// character drawn lies on the screen.
pub proof fn lemma_char_stays_on_screen(w: CursorState, c: char, columns: usize, rows: usize)
    requires
        on_screen(w, columns, rows),
    ensures
        on_screen(char_step(w, c, columns, rows).0, columns, rows),
        draws_on_screen(char_step(w, c, columns, rows).1, columns, rows),
{
    if c == '\t' {
        let sp = spaces(w, TAB_SIZE as nat, columns, rows);
        lemma_spaces_on_screen(w, TAB_SIZE as nat, columns, rows);
        lemma_wrap_on_screen(sp.0, columns, rows);
        assert(wrap(sp.0, columns, rows).1 =~= Seq::<TextAction>::empty());
        assert(sp.1 + wrap(sp.0, columns, rows).1 =~= sp.1);
    } else if c == '\n' {
        let b = line_break(w, rows);
        lemma_line_break_on_screen(w, columns, rows);
        lemma_wrap_on_screen(b.0, columns, rows);
        assert(wrap(b.0, columns, rows).1 =~= Seq::<TextAction>::empty());
        assert(b.1 + wrap(b.0, columns, rows).1 =~= b.1);
    } else {
        lemma_put_on_screen(w, char_byte(c), columns, rows);
    }
}

/// A cursor on the screen stays on it whatever string is written, and every character
/// drawn lies on the screen.
pub proof fn lemma_string_stays_on_screen(w: CursorState, s: Seq<char>, columns: usize, rows: usize)
    requires
        on_screen(w, columns, rows),
    ensures
        on_screen(string_step(w, s, columns, rows).0, columns, rows),
        draws_on_screen(string_step(w, s, columns, rows).1, columns, rows),
    decreases s.len(),
{
    if s.len() > 0 {
        let before = string_step(w, s.drop_last(), columns, rows);
        lemma_string_stays_on_screen(w, s.drop_last(), columns, rows);
        lemma_char_stays_on_screen(before.0, s.last(), columns, rows);
        let last = char_step(before.0, s.last(), columns, rows);
        let acts = before.1 + last.1;
        assert forall|i: int| 0 <= i < acts.len() implies match #[trigger] acts[i] {
            TextAction::PutChar { column, row, .. } => column < columns && row < rows,
            TextAction::Scroll { .. } => true,
        } by {
            if i < before.1.len() {
                assert(acts[i] == before.1[i]);
            } else {
                assert(acts[i] == last.1[i - before.1.len()]);
            }
        }
    }
}

/// Writing two strings one after the other is writing their concatenation: the cursor
/// ends in the same place and the drawing is the same.
pub proof fn lemma_string_step_concat(
    w: CursorState,
    s1: Seq<char>,
    s2: Seq<char>,
    columns: usize,
    rows: usize,
)
    ensures
        ({
            let first = string_step(w, s1, columns, rows);
            let second = string_step(first.0, s2, columns, rows);
            string_step(w, s1 + s2, columns, rows) == (second.0, first.1 + second.1)
        }),
    decreases s2.len(),
{
    let first = string_step(w, s1, columns, rows);
    if s2.len() == 0 {
        assert(s1 + s2 =~= s1);
        assert(first.1 + Seq::<TextAction>::empty() =~= first.1);
    } else {
        lemma_string_step_concat(w, s1, s2.drop_last(), columns, rows);
        assert((s1 + s2).drop_last() =~= s1 + s2.drop_last());
        assert((s1 + s2).last() == s2.last());
        let mid = string_step(first.0, s2.drop_last(), columns, rows);
        let last = char_step(mid.0, s2.last(), columns, rows);
        assert(first.1 + mid.1 + last.1 =~= first.1 + (mid.1 + last.1));
    }
}

/// Writing `n` spaces as characters is writing them as spaces.
proof fn lemma_space_string(w: CursorState, n: nat, columns: usize, rows: usize)
    ensures
        string_step(w, Seq::new(n, |i: int| ' '), columns, rows) == spaces(w, n, columns, rows),
    decreases n,
{
    if n > 0 {
        let s = Seq::new(n, |i: int| ' ');
        assert(s.drop_last() =~= Seq::new((n - 1) as nat, |i: int| ' '));
        lemma_space_string(w, (n - 1) as nat, columns, rows);
        assert(char_byte(' ') == 32u8);
    }
}

/// A tab on the screen is four spaces: writing it moves the cursor and draws exactly as
/// writing four space characters does.
pub proof fn lemma_tab_is_four_spaces(w: CursorState, columns: usize, rows: usize)
    requires
        on_screen(w, columns, rows),
    ensures
        char_step(w, '\t', columns, rows) == string_step(w, seq![' ', ' ', ' ', ' '], columns, rows),
{
    lemma_space_string(w, TAB_SIZE as nat, columns, rows);
    assert(seq![' ', ' ', ' ', ' '] =~= Seq::new(TAB_SIZE as nat, |i: int| ' '));
    let sp = spaces(w, TAB_SIZE as nat, columns, rows);
    lemma_spaces_on_screen(w, TAB_SIZE as nat, columns, rows);
    lemma_wrap_on_screen(sp.0, columns, rows);
    assert(wrap(sp.0, columns, rows).1 =~= Seq::<TextAction>::empty());
    assert(sp.1 + wrap(sp.0, columns, rows).1 =~= sp.1);
}

/// A newline moves the cursor to the start of the next row. On the last row a scrolling
/// writer scrolls the screen by one row and stays on that row, and a writer that does not
/// scroll goes back to the top row. The colors and the scrolling mode are kept.
pub proof fn lemma_newline_breaks_the_line(w: CursorState, columns: usize, rows: usize)
    requires
        on_screen(w, columns, rows),
    ensures
        ({
            let r = char_step(w, '\n', columns, rows);
            &&& r.0.column == 0
            &&& r.0.text == w.text
            &&& r.0.background == w.background
            &&& r.0.scrolling == w.scrolling
            &&& w.row + 1 < rows ==> r.0.row == w.row + 1 && r.1 == Seq::<TextAction>::empty()
            &&& w.row + 1 == rows && w.scrolling ==> r.0.row == w.row && r.1 == seq![
                TextAction::Scroll { lines: 1, background: w.background },
            ]
            &&& w.row + 1 == rows && !w.scrolling ==> r.0.row == 0 && r.1 == Seq::<
                TextAction,
            >::empty()
        }),
{
    let b = line_break(w, rows);
    assert(wrap(b.0, columns, rows).1 =~= Seq::<TextAction>::empty());
    assert(b.1 + wrap(b.0, columns, rows).1 =~= b.1);
}

/// Filling the last column of a row breaks the line as a newline does: a character
/// written there is drawn at the cursor, and then the cursor and the screen go exactly as
/// a newline written from just past the last column takes them.
pub proof fn lemma_full_row_breaks_like_newline(w: CursorState, c: char, columns: usize, rows: usize)
    requires
        on_screen(w, columns, rows),
        w.column + 1 == columns,
        c != '\t',
        c != '\n',
    ensures
        ({
            let past = CursorState { column: columns, ..w };
            let newline = char_step(past, '\n', columns, rows);
            char_step(w, c, columns, rows) == (
                newline.0,
                seq![
                    TextAction::PutChar {
                        column: w.column,
                        row: w.row,
                        text: w.text,
                        background: w.background,
                        byte: char_byte(c),
                    },
                ] + newline.1,
            )
        }),
{
    let past = CursorState { column: columns, ..w };
    let b = line_break(past, rows);
    assert(wrap(b.0, columns, rows).1 =~= Seq::<TextAction>::empty());
    assert(b.1 + wrap(b.0, columns, rows).1 =~= b.1);
}

/// On the last row of a scrolling writer, a character written in the last column is
/// drawn there, then the screen scrolls by one row and the cursor goes to the start of
/// that same last row.
pub proof fn lemma_full_last_row_scrolls(w: CursorState, c: char, columns: usize, rows: usize)
    requires
        on_screen(w, columns, rows),
        w.column + 1 == columns,
        w.row + 1 == rows,
        w.scrolling,
        c != '\t',
        c != '\n',
    ensures
        char_step(w, c, columns, rows) == (
            CursorState { column: 0, ..w },
            seq![
                TextAction::PutChar {
                    column: w.column,
                    row: w.row,
                    text: w.text,
                    background: w.background,
                    byte: char_byte(c),
                },
                TextAction::Scroll { lines: 1, background: w.background },
            ],
        ),
{
    let past = CursorState { column: columns, ..w };
    lemma_full_row_breaks_like_newline(w, c, columns, rows);
    lemma_newline_breaks_the_line(CursorState { column: 0, ..w }, columns, rows);
    let newline = char_step(past, '\n', columns, rows);
    assert(char_step(past, '\n', columns, rows) == char_step(
        CursorState { column: 0, ..w },
        '\n',
        columns,
        rows,
    ));
    assert(seq![
        TextAction::PutChar {
            column: w.column,
            row: w.row,
            text: w.text,
            background: w.background,
            byte: char_byte(c),
        },
    ] + newline.1 =~= seq![
        TextAction::PutChar {
            column: w.column,
            row: w.row,
            text: w.text,
            background: w.background,
            byte: char_byte(c),
        },
        TextAction::Scroll { lines: 1, background: w.background },
    ]);
}

/// Any character but a tab or a newline, written before the last column of a row, is
/// drawn at the cursor as its byte in the writer's colors, and the cursor moves one
/// column to the right on the same row; nothing else is drawn and nothing scrolls.
pub proof fn lemma_char_within_row(w: CursorState, c: char, columns: usize, rows: usize)
    requires
        on_screen(w, columns, rows),
        w.column + 1 < columns,
        c != '\t',
        c != '\n',
    ensures
        char_step(w, c, columns, rows) == (
            CursorState { column: (w.column + 1) as usize, ..w },
            seq![
                TextAction::PutChar {
                    column: w.column,
                    row: w.row,
                    text: w.text,
                    background: w.background,
                    byte: char_byte(c),
                },
            ],
        ),
{
    let drawn = TextAction::PutChar {
        column: w.column,
        row: w.row,
        text: w.text,
        background: w.background,
        byte: char_byte(c),
    };
    assert(seq![drawn] + Seq::<TextAction>::empty() =~= seq![drawn]);
}

} // verus!

use vstd::prelude::*;
use vstd::string::StringExecFns;

use owo_colors::{AnsiColors, OwoColorize};

use crate::board::Board;
use crate::cell::{Cell, CellType};

verus! {

/// The foreground colours that counts are drawn in.
#[derive(Clone, Copy, Debug, PartialEq, Eq, Structural)]
pub enum Hue {
    Blue,
    Green,
    Red,
    Magenta,
    BrightRed,
    Cyan,
    Black,
    BrightBlack,
}

/// The ANSI escape sequence with parameters `code`.
pub open spec fn escape(code: Seq<char>) -> Seq<char> {
    seq!['\u{1b}', '['] + code + seq!['m']
}

/// The ANSI foreground code of a colour.
pub open spec fn hue_code(hue: Hue) -> Seq<char> {
    match hue {
        Hue::Blue => seq!['3', '4'],
        Hue::Green => seq!['3', '2'],
        Hue::Red => seq!['3', '1'],
        Hue::Magenta => seq!['3', '5'],
        Hue::BrightRed => seq!['9', '1'],
        Hue::Cyan => seq!['3', '6'],
        Hue::Black => seq!['3', '0'],
        Hue::BrightBlack => seq!['9', '0'],
    }
}

/// `text` drawn in the colour `hue`, ending with the code for the default foreground.
pub open spec fn painted(text: Seq<char>, hue: Hue) -> Seq<char> {
    escape(hue_code(hue)) + text + escape(seq!['3', '9'])
}

/// `text` drawn in bold, ending with the reset code.
pub open spec fn emboldened(text: Seq<char>) -> Seq<char> {
    escape(seq!['1']) + text + escape(seq!['0'])
}

/// `text` drawn black on bright white, as the cursor shows it, ending with the reset code.
pub open spec fn inverted(text: Seq<char>) -> Seq<char> {
    escape(seq!['3', '0', ';', '1', '0', '7']) + text + escape(seq!['0'])
}

/// Relies on owo_colors::OwoColorize::color with an AnsiColors value: the code of the
/// colour, the text, then the code for the default foreground.
#[verifier::external_body]
fn paint(text: &str, hue: Hue) -> (r: String)
    ensures
        r@ == painted(text@, hue),
{
    let color = match hue {
        Hue::Blue => AnsiColors::Blue,
        Hue::Green => AnsiColors::Green,
        Hue::Red => AnsiColors::Red,
        Hue::Magenta => AnsiColors::Magenta,
        Hue::BrightRed => AnsiColors::BrightRed,
        Hue::Cyan => AnsiColors::Cyan,
        Hue::Black => AnsiColors::Black,
        Hue::BrightBlack => AnsiColors::BrightBlack,
    };
    text.color(color).to_string()
}

/// Relies on owo_colors::OwoColorize::bold: the code for bold, the text, then the reset code.
#[verifier::external_body]
fn embolden(text: &str) -> (r: String)
    ensures
        r@ == emboldened(text@),
{
    text.bold().to_string()
}

/// Relies on owo_colors::OwoColorize::black and on_bright_white: one code for black on
/// bright white, the text, then the reset code.
#[verifier::external_body]
fn invert(text: &str) -> (r: String)
    ensures
        r@ == inverted(text@),
{
    text.black().on_bright_white().to_string()
}

/// The digit that shows a count from 1 to 8.
pub open spec fn digit(n: u8) -> char {
    if n == 1 {
        '1'
    } else if n == 2 {
        '2'
    } else if n == 3 {
        '3'
    } else if n == 4 {
        '4'
    } else if n == 5 {
        '5'
    } else if n == 6 {
        '6'
    } else if n == 7 {
        '7'
    } else {
        '8'
    }
}

/// The colour of a count from 1 to 8.
pub open spec fn count_hue(n: u8) -> Hue {
    if n == 1 {
        Hue::Blue
    } else if n == 2 {
        Hue::Green
    } else if n == 3 {
        Hue::Red
    } else if n == 4 {
        Hue::Magenta
    } else if n == 5 {
        Hue::BrightRed
    } else if n == 6 {
        Hue::Cyan
    } else if n == 7 {
        Hue::Black
    } else {
        Hue::BrightBlack
    }
}

/// Whether a count from 1 to 8 is drawn in bold.
pub open spec fn count_bold(n: u8) -> bool {
    n == 1 || n == 2 || n == 3 || n == 5 || n == 7
}

/// How a revealed empty cell with `n` mines around it is drawn.
pub open spec fn count_text(n: u8) -> Seq<char> {
    if n == 0 {
        emboldened(seq!['.'])
    } else {
        let p = painted(seq![digit(n)], count_hue(n));
        if count_bold(n) {
            emboldened(p)
        } else {
            p
        }
    }
}

/// How a cell is drawn: a flag, a blank while hidden, a star for a mine, or its count.
pub open spec fn cell_text(c: Cell) -> Seq<char> {
    if !c.revealed {
        if c.flagged {
            seq!['⚑']
        } else {
            seq![' ']
        }
    } else if c.is_mine() {
        seq!['*']
    } else {
        count_text(c.adjacent_mines)
    }
}

/// How the cell at `(x, y)` is drawn, inverted under the cursor.
pub open spec fn shown(b: Board, x: int, y: int) -> Seq<char> {
    if b.selected == (x as nat, y as nat) {
        inverted(cell_text(b.cell(x, y)))
    } else {
        cell_text(b.cell(x, y))
    }
}

/// The first `k` cells of row `y`, each followed by a space.
pub open spec fn row_cells(b: Board, y: int, k: int) -> Seq<char>
    decreases k,
{
    if k <= 0 {
        Seq::empty()
    } else {
        row_cells(b, y, k - 1) + shown(b, k - 1, y) + seq![' ']
    }
}

/// Row `y` of the board between its side borders.
pub open spec fn row_line(b: Board, y: int) -> Seq<char> {
    seq!['│', ' '] + row_cells(b, y, b.width as int) + seq!['│']
}

/// The horizontal border of a board `width` cells wide.
pub open spec fn border(width: nat) -> Seq<char> {
    Seq::new(2 * width + 1, |i: int| '─')
}

pub open spec fn top_line(width: nat) -> Seq<char> {
    seq!['╭'] + border(width) + seq!['╮']
}

pub open spec fn bottom_line(width: nat) -> Seq<char> {
    seq!['╰'] + border(width) + seq!['╯']
}

/// The digit of a count from 1 to 8.
fn digit_str(n: u8) -> (r: &'static str)
    requires
        1 <= n <= 8,
    ensures
        r@ == seq![digit(n)],
{
    proof {
        reveal_strlit("1");
        reveal_strlit("2");
        reveal_strlit("3");
        reveal_strlit("4");
        reveal_strlit("5");
        reveal_strlit("6");
        reveal_strlit("7");
        reveal_strlit("8");
    }
    match n {
        1 => "1",
        2 => "2",
        3 => "3",
        4 => "4",
        5 => "5",
        6 => "6",
        7 => "7",
        _ => "8",
    }
}

/// The colour of a count from 1 to 8.
fn hue_of(n: u8) -> (r: Hue)
    ensures
        r == count_hue(n),
{
    match n {
        1 => Hue::Blue,
        2 => Hue::Green,
        3 => Hue::Red,
        4 => Hue::Magenta,
        5 => Hue::BrightRed,
        6 => Hue::Cyan,
        7 => Hue::Black,
        _ => Hue::BrightBlack,
    }
}

/// How a revealed empty cell with `n` mines around it is drawn.
pub fn format_count(n: u8) -> (r: String)
    requires
        n <= 8,
    ensures
        r@ == count_text(n),
{
    if n == 0 {
        proof {
            reveal_strlit(".");
            assert("."@ =~= seq!['.']);
        }
        return embolden(".");
    }
    let d = paint(digit_str(n), hue_of(n));
    if n == 1 || n == 2 || n == 3 || n == 5 || n == 7 {
        embolden(d.as_str())
    } else {
        d
    }
}

impl Cell {
    /// How this cell is drawn.
    pub fn glyph(&self) -> (r: String)
        requires
            self.adjacent_mines <= 8,
        ensures
            r@ == cell_text(*self),
    {
        proof {
            reveal_strlit("⚑");
            reveal_strlit(" ");
            reveal_strlit("*");
        }
        if !self.revealed {
            if self.flagged {
                "⚑".to_owned()
            } else {
                " ".to_owned()
            }
        } else {
            match self.cell_type {
                CellType::Mine => "*".to_owned(),
                CellType::Empty => format_count(self.adjacent_mines),
            }
        }
    }
}

/// A horizontal border line between two corner characters.
pub(crate) fn border_line(width: usize, left: &str, right: &str) -> (r: String)
    ensures
        r@ == left@ + border(width as nat) + right@,
{
    proof {
        reveal_strlit("─");
        reveal_strlit("──");
    }
    let mut s = left.to_owned();
    s.append("─");
    assert("─"@ =~= seq!['─']);
    assert("──"@ =~= seq!['─', '─']);
    assert(s@ =~= left@ + border(0));
    let mut x: usize = 0;
    while x < width
        invariant
            x <= width,
            s@ == left@ + border(x as nat),
        decreases width - x,
    {
        let ghost prev = s@;
        s.append("──");
        proof {
            reveal_strlit("──");
            assert("──"@ =~= seq!['─', '─']);
            assert(s@ == prev + seq!['─', '─']);
        }
        x += 1;
        assert(border(x as nat) =~= border((x - 1) as nat) + seq!['─', '─']);
        assert(s@ =~= left@ + border(x as nat));
    }
    s.append(right);
    s
}

/// Appends how a cell is drawn to `line`, inverted under the cursor, and a space.
pub(crate) fn push_cell(line: &mut String, c: Cell, selected: bool)
    requires
        c.adjacent_mines <= 8,
    ensures
        final(line)@ == old(line)@ + (if selected {
            inverted(cell_text(c))
        } else {
            cell_text(c)
        }) + seq![' '],
{
    proof {
        reveal_strlit(" ");
    }
    let g = c.glyph();
    if selected {
        let h = invert(g.as_str());
        line.append(h.as_str());
    } else {
        line.append(g.as_str());
    }
    line.append(" ");
}

} // verus!

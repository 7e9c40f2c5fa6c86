//! Parse the SGR-decorated text that `tmux capture-pane -e` emits into a cell grid.
//!
//! Only SGR (`ESC [ ... m`) is interpreted; every other escape sequence is
//! skipped, because `capture-pane` renders a settled screen and never emits
//! cursor motion.

use vstd::prelude::*;

use crate::text::{chars_of, split, split_chars, views};

verus! {

/// `Default` means "whatever the theme says", `Indexed` is an xterm palette
/// entry and `Rgb` is a truecolor value.
#[derive(Clone, Copy, PartialEq, Eq, Debug, Structural)]
pub enum Color {
    Default,
    Indexed(u8),
    Rgb(u8, u8, u8),
}

impl Default for Color {
    fn default() -> (c: Self)
        ensures
            c == Color::Default,
    {
        Color::Default
    }
}

#[derive(Clone, Copy, PartialEq, Eq, Debug, Structural)]
pub struct Style {
    pub fg: Color,
    pub bg: Color,
    pub bold: bool,
    pub dim: bool,
    pub italic: bool,
    pub underline: bool,
    pub reverse: bool,
}

/// The style of a freshly reset terminal: theme colours, no attributes.
pub open spec fn plain() -> Style {
    Style {
        fg: Color::Default,
        bg: Color::Default,
        bold: false,
        dim: false,
        italic: false,
        underline: false,
        reverse: false,
    }
}

impl Default for Style {
    fn default() -> (s: Self)
        ensures
            s == plain(),
    {
        Style {
            fg: Color::Default,
            bg: Color::Default,
            bold: false,
            dim: false,
            italic: false,
            underline: false,
            reverse: false,
        }
    }
}

/// `style` with `reverse` baked into the colours.
pub open spec fn resolved_style(style: Style) -> Style {
    if !style.reverse {
        style
    } else {
        Style { fg: style.bg, bg: style.fg, reverse: false, ..style }
    }
}

impl Style {
    /// Bake `reverse` into the colours so the renderer does not have to care.
    pub fn resolved(self) -> (res: Self)
        ensures
            res == resolved_style(self),
    {
        if !self.reverse {
            return self;
        }
        Self { fg: self.bg, bg: self.fg, reverse: false, ..self }
    }
}

#[derive(Clone, Copy, PartialEq, Eq, Debug, Structural)]
pub struct Cell {
    pub ch: char,
    pub style: Style,
}

/// A blank cell in `style`.
pub open spec fn blank(style: Style) -> Cell {
    Cell { ch: ' ', style }
}

impl Default for Cell {
    fn default() -> (c: Self)
        ensures
            c == blank(plain()),
    {
        Self { ch: ' ', style: Style::default() }
    }
}

#[derive(Clone, PartialEq, Eq, Debug)]
pub struct Screen {
    pub width: usize,
    pub height: usize,
    pub rows: Vec<Vec<Cell>>,
    pub cursor: Option<(usize, usize)>,
}

/// The cells of each row, in order.
pub open spec fn row_views(rows: Seq<Vec<Cell>>) -> Seq<Seq<Cell>> {
    rows.map_values(|r: Vec<Cell>| r@)
}

/// `params[k]` as a colour channel, or 0 past the end.
pub open spec fn param_byte(params: Seq<u16>, k: int) -> u8 {
    if 0 <= k < params.len() {
        params[k] as u8
    } else {
        0
    }
}

/// The colour a `38;...`/`48;...` tail starting at `i` names, and where the
/// parameters after it begin.
pub open spec fn extended_color(params: Seq<u16>, i: int) -> (Color, int) {
    if 0 <= i < params.len() && params[i] == 5 {
        (Color::Indexed(param_byte(params, i + 1)), i + 2)
    } else if 0 <= i < params.len() && params[i] == 2 {
        (
            Color::Rgb(
                param_byte(params, i + 1),
                param_byte(params, i + 2),
                param_byte(params, i + 3),
            ),
            i + 4,
        )
    } else {
        (Color::Default, i + 1)
    }
}

/// Apply the SGR parameter at `i` (with its colour tail, if any) to `style`;
/// also where the next parameter starts.
pub open spec fn sgr_step(style: Style, params: Seq<u16>, i: int) -> (Style, int) {
    let p = params[i];
    if p == 0 {
        (plain(), i + 1)
    } else if p == 1 {
        (Style { bold: true, ..style }, i + 1)
    } else if p == 2 {
        (Style { dim: true, ..style }, i + 1)
    } else if p == 3 {
        (Style { italic: true, ..style }, i + 1)
    } else if p == 4 {
        (Style { underline: true, ..style }, i + 1)
    } else if p == 7 {
        (Style { reverse: true, ..style }, i + 1)
    } else if p == 22 {
        (Style { bold: false, dim: false, ..style }, i + 1)
    } else if p == 23 {
        (Style { italic: false, ..style }, i + 1)
    } else if p == 24 {
        (Style { underline: false, ..style }, i + 1)
    } else if p == 27 {
        (Style { reverse: false, ..style }, i + 1)
    } else if 30 <= p <= 37 {
        (Style { fg: Color::Indexed((p - 30) as u8), ..style }, i + 1)
    } else if p == 38 {
        (Style { fg: extended_color(params, i + 1).0, ..style }, extended_color(params, i + 1).1)
    } else if p == 39 {
        (Style { fg: Color::Default, ..style }, i + 1)
    } else if 40 <= p <= 47 {
        (Style { bg: Color::Indexed((p - 40) as u8), ..style }, i + 1)
    } else if p == 48 {
        (Style { bg: extended_color(params, i + 1).0, ..style }, extended_color(params, i + 1).1)
    } else if p == 49 {
        (Style { bg: Color::Default, ..style }, i + 1)
    } else if 90 <= p <= 97 {
        (Style { fg: Color::Indexed((p - 90 + 8) as u8), ..style }, i + 1)
    } else if 100 <= p <= 107 {
        (Style { bg: Color::Indexed((p - 100 + 8) as u8), ..style }, i + 1)
    } else {
        (style, i + 1)
    }
}

/// Apply the parameters from `i` on, left to right.
pub open spec fn sgr_from(style: Style, params: Seq<u16>, i: int) -> Style
    decreases params.len() - i,
{
    if i < 0 || i >= params.len() {
        style
    } else {
        let (next_style, next) = sgr_step(style, params, i);
        if next <= i || next >= params.len() {
            next_style
        } else {
            sgr_from(next_style, params, next)
        }
    }
}

/// What one SGR sequence does to `style`; an empty list is a reset.
pub open spec fn sgr(style: Style, params: Seq<u16>) -> Style {
    if params.len() == 0 {
        plain()
    } else {
        sgr_from(style, params, 0)
    }
}

/// Read a `38;5;n` or `38;2;r;g;b` colour starting at `i`; the index after
/// it is capped at the end of the list.
fn extended(params: &[u16], i: usize) -> (res: (Color, usize))
    requires
        i <= params@.len(),
    ensures
        res.0 == extended_color(params@, i as int).0,
        res.1 == if extended_color(params@, i as int).1 <= params@.len() {
            extended_color(params@, i as int).1
        } else {
            params@.len() as int
        },
{
    let len = params.len();
    let at0: u8 = if len - i > 1 {
        #[verifier::truncate]
        (params[i + 1] as u8)
    } else {
        0
    };
    let at1: u8 = if len - i > 2 {
        #[verifier::truncate]
        (params[i + 2] as u8)
    } else {
        0
    };
    let at2: u8 = if len - i > 3 {
        #[verifier::truncate]
        (params[i + 3] as u8)
    } else {
        0
    };
    if i < len && params[i] == 5 {
        (Color::Indexed(at0), if len - i >= 2 { i + 2 } else { len })
    } else if i < len && params[i] == 2 {
        (Color::Rgb(at0, at1, at2), if len - i >= 4 { i + 4 } else { len })
    } else {
        (Color::Default, if len - i >= 1 { i + 1 } else { len })
    }
}

/// The parameter at `i` applied to `style`, and where the next one starts
/// (capped at the end of the list).
fn sgr_one(style: Style, params: &[u16], i: usize) -> (res: (Style, usize))
    requires
        i < params@.len(),
    ensures
        res.0 == sgr_step(style, params@, i as int).0,
        i < res.1 <= params@.len(),
        res.1 == if sgr_step(style, params@, i as int).1 <= params@.len() {
            sgr_step(style, params@, i as int).1
        } else {
            params@.len() as int
        },
{
    let mut style = style;
    let p = params[i];
    let next = i + 1;
    if p == 0 {
        style = Style::default();
    } else if p == 1 {
        style.bold = true;
    } else if p == 2 {
        style.dim = true;
    } else if p == 3 {
        style.italic = true;
    } else if p == 4 {
        style.underline = true;
    } else if p == 7 {
        style.reverse = true;
    } else if p == 22 {
        style.bold = false;
        style.dim = false;
    } else if p == 23 {
        style.italic = false;
    } else if p == 24 {
        style.underline = false;
    } else if p == 27 {
        style.reverse = false;
    } else if 30 <= p && p <= 37 {
        style.fg = Color::Indexed((p - 30) as u8);
    } else if p == 38 {
        let (color, after) = extended(params, next);
        style.fg = color;
        return (style, after);
    } else if p == 39 {
        style.fg = Color::Default;
    } else if 40 <= p && p <= 47 {
        style.bg = Color::Indexed((p - 40) as u8);
    } else if p == 48 {
        let (color, after) = extended(params, next);
        style.bg = color;
        return (style, after);
    } else if p == 49 {
        style.bg = Color::Default;
    } else if 90 <= p && p <= 97 {
        style.fg = Color::Indexed((p - 90 + 8) as u8);
    } else if 100 <= p && p <= 107 {
        style.bg = Color::Indexed((p - 100 + 8) as u8);
    }
    (style, next)
}

/// Fold one SGR parameter list into `style`.
pub fn apply_sgr(style: Style, params: &[u16]) -> (res: Style)
    ensures
        res == sgr(style, params@),
{
    if params.len() == 0 {
        return Style::default();
    }
    let ghost start = style;
    let mut style = style;
    let mut i: usize = 0;
    while i < params.len()
        invariant
            params@.len() > 0,
            i <= params@.len(),
            sgr(start, params@) == sgr_from(style, params@, i as int),
        decreases params@.len() - i,
    {
        let (next_style, next) = sgr_one(style, params, i);
        style = next_style;
        i = next;
    }
    style
}


/// `char::is_ascii_digit`.
pub open spec fn is_digit(c: char) -> bool {
    48 <= c as u32 <= 57
}

/// `char::is_ascii_alphabetic`.
pub open spec fn is_alpha(c: char) -> bool {
    (65 <= c as u32 <= 90) || (97 <= c as u32 <= 122)
}

/// A parameter as SGR reads it: large values stick at `u16::MAX`.
pub open spec fn clamp16(value: nat) -> u16 {
    if value > 0xffff {
        0xffff
    } else {
        value as u16
    }
}

/// The body of a control sequence from index `k`: the index after its final
/// byte, the final byte, and the parameters. `value` is the number being
/// read and `seen` whether it has a digit yet. A sequence cut off by the end
/// of the line reads as if it ended in `m`, without its unfinished number.
pub open spec fn csi(line: Seq<char>, k: int, params: Seq<u16>, value: nat, seen: bool) -> (
    int,
    char,
    Seq<u16>,
)
    decreases line.len() - k,
{
    if k < 0 || k >= line.len() {
        (line.len() as int, 'm', params)
    } else {
        let c = line[k];
        if is_digit(c) {
            csi(line, k + 1, params, value * 10 + (c as u32 - 48) as nat, true)
        } else if c == ';' || c == ':' {
            csi(line, k + 1, params.push(clamp16(value)), 0, false)
        } else if is_alpha(c) {
            (
                k + 1,
                c,
                if seen || params.len() > 0 {
                    params.push(clamp16(value))
                } else {
                    params
                },
            )
        } else {
            csi(line, k + 1, params, value, seen)
        }
    }
}

/// Where an OSC string begun at `k` stops: just after the BEL that ends it,
/// just after an ST (ESC then a backslash) that ends it, at an ESC that starts
/// something else, or at the end of the line.
pub open spec fn osc_end(line: Seq<char>, k: int) -> int
    decreases line.len() - k,
{
    if k < 0 || k >= line.len() {
        line.len() as int
    } else if line[k] == '\x07' {
        k + 1
    } else if line[k] == '\x1b' {
        if k + 1 < line.len() && line[k + 1] == '\\' {
            k + 2
        } else {
            k
        }
    } else {
        osc_end(line, k + 1)
    }
}

/// Whether `c` is an intermediate byte of an escape sequence (space to `/`).
pub open spec fn is_intermediate(c: char) -> bool {
    0x20 <= (c as u32) <= 0x2f
}

/// Where an escape sequence other than CSI and OSC stops, its body beginning
/// at `k`: just after the final character that follows any intermediate
/// bytes, or at the end of the line.
pub open spec fn esc_end(line: Seq<char>, k: int) -> int
    decreases line.len() - k,
{
    if k < 0 || k >= line.len() {
        line.len() as int
    } else if is_intermediate(line[k]) {
        esc_end(line, k + 1)
    } else {
        k + 1
    }
}

pub proof fn lemma_csi_bounds(line: Seq<char>, k: int, params: Seq<u16>, value: nat, seen: bool)
    requires
        0 <= k <= line.len(),
    ensures
        k <= csi(line, k, params, value, seen).0 <= line.len(),
    decreases line.len() - k,
{
    if k < line.len() {
        let c = line[k];
        if is_digit(c) {
            lemma_csi_bounds(line, k + 1, params, value * 10 + (c as u32 - 48) as nat, true);
        } else if c == ';' || c == ':' {
            lemma_csi_bounds(line, k + 1, params.push(clamp16(value)), 0, false);
        } else if !is_alpha(c) {
            lemma_csi_bounds(line, k + 1, params, value, seen);
        }
    }
}

pub proof fn lemma_osc_bounds(line: Seq<char>, k: int)
    requires
        0 <= k <= line.len(),
    ensures
        k <= osc_end(line, k) <= line.len(),
    decreases line.len() - k,
{
    if k < line.len() && !(line[k] == '\x07' || line[k] == '\x1b') {
        lemma_osc_bounds(line, k + 1);
    }
}

pub proof fn lemma_esc_bounds(line: Seq<char>, k: int)
    requires
        0 <= k <= line.len(),
    ensures
        k < esc_end(line, k) <= line.len() || (k == line.len() && esc_end(line, k) == k),
    decreases line.len() - k,
{
    if k < line.len() && is_intermediate(line[k]) {
        lemma_esc_bounds(line, k + 1);
    }
}

/// The blanks a tab adds to a row of `n` cells: up to the next multiple of 8.
pub open spec fn tab_fill(n: nat, style: Style) -> Seq<Cell> {
    Seq::new((8 - n % 8) as nat, |k: int| blank(style))
}

/// The cells one captured line produces from index `i` on, given the style
/// in force and the cells so far; also the style in force at its end.
pub open spec fn scan(line: Seq<char>, i: int, style: Style, row: Seq<Cell>) -> (Seq<Cell>, Style)
    decreases line.len() - i,
{
    if i < 0 || i >= line.len() {
        (row, style)
    } else {
        let ch = line[i];
        if ch == '\x1b' {
            if i + 1 < line.len() && line[i + 1] == '[' {
                proof {
                    lemma_csi_bounds(line, i + 2, Seq::empty(), 0, false);
                }
                let (j, fin, params) = csi(line, i + 2, Seq::empty(), 0, false);
                scan(
                    line,
                    j,
                    if fin == 'm' {
                        sgr(style, params)
                    } else {
                        style
                    },
                    row,
                )
            } else if i + 1 < line.len() && line[i + 1] == ']' {
                proof {
                    lemma_osc_bounds(line, i + 2);
                }
                scan(line, osc_end(line, i + 2), style, row)
            } else {
                proof {
                    lemma_esc_bounds(line, i + 1);
                }
                scan(line, esc_end(line, i + 1), style, row)
            }
        } else if ch == '\r' {
            scan(line, i + 1, style, row)
        } else if ch == '\t' {
            scan(line, i + 1, style, row + tab_fill(row.len(), style))
        } else {
            scan(line, i + 1, style, row.push(Cell { ch, style }))
        }
    }
}

/// `cells` cut or padded (with blanks in `style`) to exactly `width`.
pub open spec fn fit_row(cells: Seq<Cell>, width: nat, style: Style) -> Seq<Cell> {
    if cells.len() >= width {
        cells.take(width as int)
    } else {
        cells + Seq::new((width - cells.len()) as nat, |k: int| blank(style))
    }
}

/// The rows that captured lines `k..` produce, the style carrying over from
/// one line to the next.
pub open spec fn rows_from(lines: Seq<Seq<char>>, k: int, style: Style, width: nat) -> Seq<
    Seq<Cell>,
>
    decreases lines.len() - k,
{
    if k < 0 || k >= lines.len() {
        Seq::empty()
    } else {
        let (cells, after) = scan(lines[k], 0, style, Seq::empty());
        seq![fit_row(cells, width, after)] + rows_from(lines, k + 1, after, width)
    }
}

/// The first `height` lines of `text`.
pub open spec fn shown_lines(text: Seq<char>, height: nat) -> Seq<Seq<char>> {
    let lines = split(text, '\n');
    if lines.len() > height {
        lines.take(height as int)
    } else {
        lines
    }
}

/// The grid `parse` makes of `text`: one row per shown line, then blank rows.
pub open spec fn grid(text: Seq<char>, width: nat, height: nat) -> Seq<Seq<Cell>> {
    let rows = rows_from(shown_lines(text, height), 0, plain(), width);
    rows + Seq::new(
        (height - rows.len()) as nat,
        |k: int| Seq::new(width, |j: int| blank(plain())),
    )
}

/// Read the control sequence body that starts at `k`.
fn read_csi(line: &Vec<char>, k: usize) -> (res: (usize, char, Vec<u16>))
    requires
        k <= line@.len(),
    ensures
        res.0 == csi(line@, k as int, Seq::empty(), 0, false).0,
        res.1 == csi(line@, k as int, Seq::empty(), 0, false).1,
        res.2@ == csi(line@, k as int, Seq::empty(), 0, false).2,
{
    let mut params: Vec<u16> = Vec::new();
    let mut value: u32 = 0;
    let ghost mut exact: nat = 0;
    let mut seen = false;
    let mut i = k;
    while i < line.len()
        invariant
            k <= i <= line@.len(),
            csi(line@, k as int, Seq::empty(), 0, false) == csi(line@, i as int, params@, exact, seen),
            value as nat == if exact > 65536 {
                65536
            } else {
                exact
            },
        decreases line@.len() - i,
    {
        let c = line[i];
        let u = c as u32;
        if 48 <= u && u <= 57 {
            proof {
                exact = exact * 10 + (u - 48) as nat;
            }
            value = if value >= 65536 {
                65536
            } else if value * 10 + (u - 48) > 65536 {
                65536
            } else {
                value * 10 + (u - 48)
            };
            seen = true;
        } else if c == ';' || c == ':' {
            params.push(if value > 0xffff {
                0xffff
            } else {
                value as u16
            });
            value = 0;
            proof {
                exact = 0;
            }
            seen = false;
        } else if (65 <= u && u <= 90) || (97 <= u && u <= 122) {
            if seen || params.len() > 0 {
                params.push(if value > 0xffff {
                    0xffff
                } else {
                    value as u16
                });
            }
            return (i + 1, c, params);
        }
        i += 1;
    }
    (line.len(), 'm', params)
}

/// Where the OSC string begun at `k` stops.
fn skip_osc(line: &Vec<char>, k: usize) -> (res: usize)
    requires
        k <= line@.len(),
    ensures
        res == osc_end(line@, k as int),
{
    let mut i = k;
    while i < line.len()
        invariant
            k <= i <= line@.len(),
            osc_end(line@, k as int) == osc_end(line@, i as int),
        decreases line@.len() - i,
    {
        if line[i] == '\x07' {
            return i + 1;
        }
        if line[i] == '\x1b' {
            if line.len() - i > 1 && line[i + 1] == '\\' {
                return i + 2;
            }
            return i;
        }
        i += 1;
    }
    line.len()
}

/// Where the escape sequence whose body begins at `k` stops.
fn skip_esc(line: &Vec<char>, k: usize) -> (res: usize)
    requires
        k <= line@.len(),
    ensures
        res == esc_end(line@, k as int),
{
    let mut i = k;
    while i < line.len()
        invariant
            k <= i <= line@.len(),
            esc_end(line@, k as int) == esc_end(line@, i as int),
        decreases line@.len() - i,
    {
        let u = line[i] as u32;
        if !(0x20 <= u && u <= 0x2f) {
            return i + 1;
        }
        i += 1;
    }
    line.len()
}

/// Run one captured line through the escape-sequence reader.
fn scan_line(line: &Vec<char>, style: Style) -> (res: (Vec<Cell>, Style))
    ensures
        (res.0@, res.1) == scan(line@, 0, style, Seq::empty()),
{
    let ghost start = style;
    let mut style = style;
    let mut row: Vec<Cell> = Vec::new();
    let mut i: usize = 0;
    while i < line.len()
        invariant
            i <= line@.len(),
            scan(line@, 0, start, Seq::empty()) == scan(line@, i as int, style, row@),
        decreases line@.len() - i,
    {
        let ch = line[i];
        if ch == '\x1b' {
            if line.len() - i > 1 && line[i + 1] == '[' {
                let (j, fin, params) = read_csi(line, i + 2);
                proof {
                    lemma_csi_bounds(line@, i + 2, Seq::empty(), 0, false);
                }
                if fin == 'm' {
                    style = apply_sgr(style, params.as_slice());
                }
                i = j;
            } else if line.len() - i > 1 && line[i + 1] == ']' {
                proof {
                    lemma_osc_bounds(line@, i + 2);
                }
                i = skip_osc(line, i + 2);
            } else {
                proof {
                    lemma_esc_bounds(line@, i + 1);
                }
                i = skip_esc(line, i + 1);
            }
        } else if ch == '\r' {
            i += 1;
        } else if ch == '\t' {
            let stop = 8 - row.len() % 8;
            let ghost before = row@;
            let mut t: usize = 0;
            while t < stop
                invariant
                    t <= stop,
                    stop == 8 - before.len() % 8,
                    row@ == before + Seq::new(t as nat, |k: int| blank(style)),
                decreases stop - t,
            {
                row.push(Cell { ch: ' ', style });
                t += 1;
                assert(row@ =~= before + Seq::new(t as nat, |k: int| blank(style)));
            }
            i += 1;
        } else {
            row.push(Cell { ch, style });
            i += 1;
        }
    }
    (row, style)
}

/// `cells` cut or padded with blanks in `style` to `width`.
fn fit(cells: Vec<Cell>, width: usize, style: Style) -> (res: Vec<Cell>)
    ensures
        res@ == fit_row(cells@, width as nat, style),
{
    let mut row = cells;
    if row.len() >= width {
        row.truncate(width);
        return row;
    }
    let ghost before = row@;
    let n = width - row.len();
    let mut t: usize = 0;
    while t < n
        invariant
            t <= n,
            n == width - before.len(),
            row@ == before + Seq::new(t as nat, |k: int| blank(style)),
        decreases n - t,
    {
        row.push(Cell { ch: ' ', style });
        t += 1;
        assert(row@ =~= before + Seq::new(t as nat, |k: int| blank(style)));
    }
    row
}

pub proof fn lemma_rows_from_shape(lines: Seq<Seq<char>>, k: int, style: Style, width: nat)
    requires
        0 <= k <= lines.len(),
    ensures
        rows_from(lines, k, style, width).len() == lines.len() - k,
        forall|r: int|
            0 <= r < rows_from(lines, k, style, width).len() ==> (#[trigger] rows_from(
                lines,
                k,
                style,
                width,
            )[r]).len() == width,
    decreases lines.len() - k,
{
    if k < lines.len() {
        let (cells, after) = scan(lines[k], 0, style, Seq::empty());
        lemma_rows_from_shape(lines, k + 1, after, width);
        let rest = rows_from(lines, k + 1, after, width);
        let all = rows_from(lines, k, style, width);
        assert(all == seq![fit_row(cells, width, after)] + rest);
        assert forall|r: int| 0 <= r < all.len() implies (#[trigger] all[r]).len() == width by {
            if r > 0 {
                assert(all[r] == rest[r - 1]);
            }
        }
    }
}

/// Every grid has `height` rows of `width` cells.
pub proof fn lemma_grid_shape(text: Seq<char>, width: nat, height: nat)
    ensures
        grid(text, width, height).len() == height,
        forall|r: int|
            0 <= r < height ==> (#[trigger] grid(text, width, height)[r]).len() == width,
{
    let lines = shown_lines(text, height);
    lemma_rows_from_shape(lines, 0, plain(), width);
    let rows = rows_from(lines, 0, plain(), width);
    let g = grid(text, width, height);
    assert forall|r: int| 0 <= r < height implies (#[trigger] g[r]).len() == width by {
        if r < rows.len() {
            assert(g[r] == rows[r]);
        }
    }
}

/// Turn captured pane text into a fixed `width` x `height` cell grid.
pub fn parse(text: &str, width: usize, height: usize) -> (res: Screen)
    ensures
        res.width == width,
        res.height == height,
        res.cursor is None,
        row_views(res.rows@) == grid(text@, width as nat, height as nat),
        res.rows@.len() == height,
        forall|r: int| 0 <= r < height ==> (#[trigger] res.rows@[r])@.len() == width,
{
    let chars = chars_of(text);
    let lines = split_chars(&chars, '\n');
    let ghost shown = shown_lines(text@, height as nat);
    assert(shown =~= views(lines@).take(shown.len() as int));
    let mut rows: Vec<Vec<Cell>> = Vec::new();
    let mut style = Style::default();
    let mut k: usize = 0;
    assert(row_views(rows@) =~= Seq::<Seq<Cell>>::empty());
    while k < lines.len() && k < height
        invariant
            k <= shown.len(),
            shown == views(lines@).take(shown.len() as int),
            shown.len() == if lines@.len() > height {
                height as int
            } else {
                lines@.len() as int
            },
            rows_from(shown, 0, plain(), width as nat) == row_views(rows@) + rows_from(
                shown,
                k as int,
                style,
                width as nat,
            ),
        decreases lines@.len() - k,
    {
        assert(shown[k as int] == lines@[k as int]@);
        let (cells, after) = scan_line(&lines[k], style);
        let ghost before = row_views(rows@);
        let row = fit(cells, width, after);
        rows.push(row);
        assert(row_views(rows@) =~= before.push(row@));
        style = after;
        k += 1;
        assert(before.push(row@) + rows_from(shown, k as int, style, width as nat) =~= before + (
        seq![row@] + rows_from(shown, k as int, style, width as nat)));
    }
    assert(rows_from(shown, k as int, style, width as nat) =~= Seq::<Seq<Cell>>::empty());
    assert(row_views(rows@) =~= rows_from(shown, 0, plain(), width as nat));
    proof {
        lemma_rows_from_shape(shown, 0, plain(), width as nat);
    }
    let ghost full = row_views(rows@);
    while rows.len() < height
        invariant
            full.len() <= rows@.len() <= height,
            full.len() <= height,
            row_views(rows@) == full + Seq::new(
                (rows@.len() - full.len()) as nat,
                |i: int| Seq::new(width as nat, |j: int| blank(plain())),
            ),
        decreases height - rows@.len(),
    {
        let ghost before = row_views(rows@);
        let blank_row = fit(Vec::new(), width, Style::default());
        assert(blank_row@ =~= Seq::new(width as nat, |j: int| blank(plain())));
        rows.push(blank_row);
        assert(row_views(rows@) =~= before.push(blank_row@));
        assert(row_views(rows@) =~= full + Seq::new(
            (rows@.len() - full.len()) as nat,
            |i: int| Seq::new(width as nat, |j: int| blank(plain())),
        ));
    }
    proof {
        lemma_rows_from_shape(shown, 0, plain(), width as nat);
        lemma_grid_shape(text@, width as nat, height as nat);
        assert(row_views(rows@) =~= grid(text@, width as nat, height as nat));
        assert forall|r: int| 0 <= r < height implies (#[trigger] rows@[r])@.len() == width by {
            assert(rows@[r]@ == row_views(rows@)[r]);
        }
    }
    Screen { width, height, rows, cursor: None }
}


/// `ESC[m` and `ESC[0m` reset everything: whatever the style before, the
/// result is the plain style; and a sequence that starts with `0` goes on
/// from the plain style, so nothing set before it survives.
pub proof fn reset_clears_everything(style: Style, params: Seq<u16>)
    ensures
        sgr(style, Seq::empty()) == plain(),
        sgr(style, seq![0u16]) == plain(),
        params.len() > 1 && params[0] == 0 ==> sgr(style, params) == sgr_from(plain(), params, 1),
{
    assert(seq![0u16][0] == 0);
}

/// Baking `reverse` in leaves no `reverse` behind, so doing it twice changes
/// nothing more.
pub proof fn resolved_is_final(style: Style)
    ensures
        !resolved_style(style).reverse,
        resolved_style(resolved_style(style)) == resolved_style(style),
{
}


/// Whether an SGR parameter is one the parser gives no meaning.
pub open spec fn has_no_meaning(p: u16) -> bool {
    !(p <= 4 || p == 7 || p == 22 || p == 23 || p == 24 || p == 27 || (30 <= p <= 49) || (90 <= p
        <= 97) || (100 <= p <= 107))
}

/// What one SGR parameter means on its own: `0` resets; `1`, `2`, `3`, `4`
/// and `7` turn on bold, dim, italic, underline and reverse; `22` turns off
/// bold and dim, `23`, `24` and `27` turn off italic, underline and reverse;
/// `30`-`37` pick foreground palette entries 0-7 and `90`-`97` entries 8-15,
/// `40`-`47` and `100`-`107` do the same for the background; `39` and `49`
/// give the foreground or background back to the theme. Every field the
/// parameter does not name keeps its value, and a parameter with no meaning
/// changes nothing.
pub proof fn one_sgr_parameter(style: Style, p: u16)
    requires
        p != 38,
        p != 48,
    ensures
        p == 0 ==> sgr(style, seq![p]) == plain(),
        p == 1 ==> sgr(style, seq![p]) == (Style { bold: true, ..style }),
        p == 2 ==> sgr(style, seq![p]) == (Style { dim: true, ..style }),
        p == 3 ==> sgr(style, seq![p]) == (Style { italic: true, ..style }),
        p == 4 ==> sgr(style, seq![p]) == (Style { underline: true, ..style }),
        p == 7 ==> sgr(style, seq![p]) == (Style { reverse: true, ..style }),
        p == 22 ==> sgr(style, seq![p]) == (Style { bold: false, dim: false, ..style }),
        p == 23 ==> sgr(style, seq![p]) == (Style { italic: false, ..style }),
        p == 24 ==> sgr(style, seq![p]) == (Style { underline: false, ..style }),
        p == 27 ==> sgr(style, seq![p]) == (Style { reverse: false, ..style }),
        30 <= p <= 37 ==> sgr(style, seq![p]) == (Style { fg: Color::Indexed((p - 30) as u8), ..style }),
        90 <= p <= 97 ==> sgr(style, seq![p]) == (Style { fg: Color::Indexed((p - 82) as u8), ..style }),
        40 <= p <= 47 ==> sgr(style, seq![p]) == (Style { bg: Color::Indexed((p - 40) as u8), ..style }),
        100 <= p <= 107 ==> sgr(style, seq![p]) == (Style { bg: Color::Indexed((p - 92) as u8), ..style }),
        p == 39 ==> sgr(style, seq![p]) == (Style { fg: Color::Default, ..style }),
        p == 49 ==> sgr(style, seq![p]) == (Style { bg: Color::Default, ..style }),
        has_no_meaning(p) ==> sgr(style, seq![p]) == style,
{
    assert(seq![p][0] == p);
}

/// The extended colours: `38;5;n` and `48;5;n` pick palette entry `n` for the
/// foreground or background, `38;2;r;g;b` and `48;2;r;g;b` a truecolor; the
/// other side and the attributes keep their values.
pub proof fn extended_sgr_colours(style: Style, n: u16, r: u16, g: u16, b: u16)
    requires
        n < 256,
        r < 256,
        g < 256,
        b < 256,
    ensures
        sgr(style, seq![38u16, 5, n]) == (Style { fg: Color::Indexed(n as u8), ..style }),
        sgr(style, seq![48u16, 5, n]) == (Style { bg: Color::Indexed(n as u8), ..style }),
        sgr(style, seq![38u16, 2, r, g, b]) == (Style { fg: Color::Rgb(r as u8, g as u8, b as u8), ..style }),
        sgr(style, seq![48u16, 2, r, g, b]) == (Style { bg: Color::Rgb(r as u8, g as u8, b as u8), ..style }),
{
    let s1 = seq![38u16, 5, n];
    let s2 = seq![48u16, 5, n];
    let s3 = seq![38u16, 2, r, g, b];
    let s4 = seq![48u16, 2, r, g, b];
    assert(s1[0] == 38 && s1[1] == 5 && s1[2] == n);
    assert(s2[0] == 48 && s2[1] == 5 && s2[2] == n);
    assert(s3[0] == 38 && s3[1] == 2 && s3[2] == r && s3[3] == g && s3[4] == b);
    assert(s4[0] == 48 && s4[1] == 2 && s4[2] == r && s4[3] == g && s4[4] == b);
}

/// Parameters apply left to right: two plain parameters in one sequence do
/// what the first and then the second do on their own.
pub proof fn sgr_parameters_compose(style: Style, p: u16, q: u16)
    requires
        p != 38,
        p != 48,
        q != 38,
        q != 48,
    ensures
        sgr(style, seq![p, q]) == sgr(sgr(style, seq![p]), seq![q]),
{
    let s = seq![p, q];
    assert(s[0] == p && s[1] == q);
    assert(seq![p][0] == p);
    assert(seq![q][0] == q);
    let first = sgr_step(style, s, 0);
    assert(first.1 == 1);
    assert(first.0 == sgr_step(style, seq![p], 0).0);
    assert(sgr(sgr(style, seq![p]), seq![q]) == sgr_step(first.0, seq![q], 0).0);
    assert(sgr_step(first.0, s, 1).0 == sgr_step(first.0, seq![q], 0).0);
    assert(sgr_from(style, s, 0) == sgr_from(first.0, s, 1));
}


/// A tab pads the row with blanks in the current style up to the next
/// multiple of eight cells, at least one and at most eight.
pub proof fn tabs_stop_every_eight_cells(line: Seq<char>, i: int, style: Style, row: Seq<Cell>)
    requires
        0 <= i < line.len(),
        line[i] == '\t',
    ensures
        scan(line, i, style, row) == scan(line, i + 1, style, row + tab_fill(row.len(), style)),
        (row.len() + tab_fill(row.len(), style).len()) % 8 == 0,
        1 <= tab_fill(row.len(), style).len() <= 8,
        forall|k: int| 0 <= k < tab_fill(row.len(), style).len() ==> #[trigger] tab_fill(row.len(), style)[k]
            == blank(style),
{
}

} // verus!

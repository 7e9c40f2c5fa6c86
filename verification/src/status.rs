//! Render tmux's own status line, which `capture-pane` cannot see.
//!
//! The status line belongs to no pane - tmux draws it itself - so it never
//! appears in a capture. It can be asked for instead: `#{E:status-format[0]}`
//! expands to the finished line, with real window names and real colours, but
//! still carrying tmux's own `#[fg=...,bold]` style markup and `#[align=...]`
//! layout directives. This module turns that into cells.
//!
//! Layout is modelled as three sections - left, centre, right - which is what
//! tmux's `align=` directives amount to in every default and themed
//! configuration. The `range`, `list` and marker directives are drawing hints
//! for mouse regions and window-list scrolling; they change nothing about the
//! glyphs, so they are skipped.

use vstd::prelude::*;

use crate::ansi::{blank, plain, Cell, Color, Style};
use crate::number::{
    decimal, digit_of, hex, hex_bound, hex_reads_back, lemma_decimal_digits, lemma_decimal_parses,
    lemma_hex_digits, lemma_hex_len, lemma_leading_zeros, parse_hex_u32, parse_radix, parse_u16,
    zero_pad,
};
use crate::text::{
    chars_of, find_char, has_prefix, is_ws, lemma_trim_unchanged, position, same_str, slice, split2,
    split2_chars, starts_with_str, trim, trim_chars, views,
};

verus! {

/// The colour names tmux knows, in palette order.
pub open spec fn named_index(t: Seq<char>) -> Option<u8> {
    if t == "black"@ {
        Some(0)
    } else if t == "red"@ {
        Some(1)
    } else if t == "green"@ {
        Some(2)
    } else if t == "yellow"@ {
        Some(3)
    } else if t == "blue"@ {
        Some(4)
    } else if t == "magenta"@ {
        Some(5)
    } else if t == "cyan"@ {
        Some(6)
    } else if t == "white"@ {
        Some(7)
    } else {
        None
    }
}

/// `colourN` / `colorN` with `N` below 256, read after a prefix of `skip` characters.
pub open spec fn palette_number(t: Seq<char>, skip: int) -> Option<u8> {
    match parse_radix(t.skip(skip), 10, u16::MAX as nat) {
        Some(n) => if n < 256 {
            Some(n as u8)
        } else {
            None
        },
        None => None,
    }
}

/// The three channels of `0xRRGGBB`.
pub open spec fn rgb_of(v: nat) -> Color {
    Color::Rgb(((v / 65536) % 256) as u8, ((v / 256) % 256) as u8, (v % 256) as u8)
}

/// tmux colour syntax: a name, `colour123`, `#rrggbb`, or `default`; anything
/// else is the default colour.
pub open spec fn color_of(text: Seq<char>) -> Color {
    let t = trim(text);
    if t.len() == 0 || t == "default"@ || t == "terminal"@ {
        Color::Default
    } else if t[0] == '#' && t.len() == 7 && parse_radix(t.drop_first(), 16, u32::MAX as nat) is Some {
        rgb_of(parse_radix(t.drop_first(), 16, u32::MAX as nat)->0)
    } else if has_prefix(t, "colour"@) && palette_number(t, "colour"@.len() as int) is Some {
        Color::Indexed(palette_number(t, "colour"@.len() as int)->0)
    } else if has_prefix(t, "color"@) && palette_number(t, "color"@.len() as int) is Some {
        Color::Indexed(palette_number(t, "color"@.len() as int)->0)
    } else if named_index(t) is Some {
        Color::Indexed(named_index(t)->0)
    } else if has_prefix(t, "bright"@) && named_index(t.skip("bright"@.len() as int)) is Some {
        Color::Indexed((named_index(t.skip("bright"@.len() as int))->0 + 8) as u8)
    } else {
        Color::Default
    }
}

/// The colour names tmux knows, in palette order.
pub open spec fn colour_names() -> Seq<Seq<char>> {
    seq!["black"@, "red"@, "green"@, "yellow"@, "blue"@, "magenta"@, "cyan"@, "white"@]
}

/// Each colour name picks the palette entry at its place in the list, and
/// `bright` before it picks the entry eight further on.
pub proof fn colour_names_pick_their_entries(k: int)
    requires
        0 <= k < 8,
    ensures
        color_of(colour_names()[k]) == Color::Indexed(k as u8),
        color_of("bright"@ + colour_names()[k]) == Color::Indexed((k + 8) as u8),
{
    reveal_strlit("black");
    reveal_strlit("red");
    reveal_strlit("green");
    reveal_strlit("yellow");
    reveal_strlit("blue");
    reveal_strlit("magenta");
    reveal_strlit("cyan");
    reveal_strlit("white");
    reveal_strlit("bright");
    reveal_strlit("default");
    reveal_strlit("terminal");
    reveal_strlit("colour");
    reveal_strlit("color");
    let n = colour_names()[k];
    let b = "bright"@ + n;
    assert(n.len() >= 3);
    assert(!is_ws(n[0]) && !is_ws(n.last()));
    lemma_trim_unchanged(n);
    assert(b[0] == 'b' && b.last() == n.last());
    lemma_trim_unchanged(b);
    assert(b.skip(6) =~= n);
    assert(!has_prefix(n, "colour"@)) by {
        if has_prefix(n, "colour"@) {
            assert(n.take(6)[1] == n[1]);
        }
    }
    assert(!has_prefix(n, "color"@)) by {
        if has_prefix(n, "color"@) {
            assert(n.take(5)[1] == n[1]);
        }
    }
    assert(!has_prefix(b, "colour"@)) by {
        if has_prefix(b, "colour"@) {
            assert(b.take(6)[1] == b[1]);
        }
    }
    assert(!has_prefix(b, "color"@)) by {
        if has_prefix(b, "color"@) {
            assert(b.take(5)[1] == b[1]);
        }
    }
    assert(b.take(6) =~= "bright"@);
    assert(named_index(b) is None) by {
        assert(b.len() > n.len());
        if b == "black"@ || b == "red"@ || b == "green"@ || b == "yellow"@ || b == "blue"@ || b
            == "magenta"@ || b == "cyan"@ || b == "white"@ {
            assert(b.len() <= 7);
        }
    }
}

/// `colourN` and `colorN` pick palette entry `N`, for every `N` below 256.
pub proof fn palette_numbers_pick_their_entries(n: u8)
    ensures
        color_of("colour"@ + decimal(n as nat)) == Color::Indexed(n),
        color_of("color"@ + decimal(n as nat)) == Color::Indexed(n),
{
    reveal_strlit("colour");
    reveal_strlit("color");
    reveal_strlit("default");
    reveal_strlit("terminal");
    lemma_decimal_digits(n as nat);
    lemma_decimal_parses(n as nat, u16::MAX as nat);
    let d = decimal(n as nat);
    let a = "colour"@ + d;
    let b = "color"@ + d;
    assert(a[0] == 'c' && b[0] == 'c');
    assert(a.last() == d.last() && b.last() == d.last());
    assert(48 <= (d.last() as u32) <= 57);
    lemma_trim_unchanged(a);
    lemma_trim_unchanged(b);
    assert(a.take(6) =~= "colour"@);
    assert(b.take(5) =~= "color"@);
    assert(a.skip(6) =~= d);
    assert(b.skip(5) =~= d);
    assert(a != "default"@ && a != "terminal"@) by {
        assert(a[1] == 'o');
        assert("default"@[1] == 'e' && "terminal"@[1] == 'e');
    }
    assert(b != "default"@ && b != "terminal"@) by {
        assert(b[1] == 'o');
        assert("default"@[1] == 'e' && "terminal"@[1] == 'e');
    }
    if has_prefix(b, "colour"@) {
        assert(b.skip(6) =~= d.skip(1));
        assert(b.take(6)[5] == 'u');
        assert(b[5] == d[0]);
    }
}

/// `#rrggbb` picks the truecolour whose channels the three pairs of hex
/// digits spell, red first.
pub proof fn hex_colours_pick_their_channels(r: u8, g: u8, b: u8, upper: bool)
    ensures
        color_of(seq!['#'] + zero_pad(hex((r as nat) * 65536 + (g as nat) * 256 + b as nat, upper), 6))
            == Color::Rgb(r, g, b),
{
    reveal_strlit("default");
    reveal_strlit("terminal");
    let v: nat = (r as nat) * 65536 + (g as nat) * 256 + b as nat;
    assert(v < 16777216);
    reveal_with_fuel(hex_bound, 7);
    assert(hex_bound(6) == 16777216);
    lemma_hex_len(v, upper, 6);
    hex_reads_back(v, upper, 6, u32::MAX as nat);
    let d = zero_pad(hex(v, upper), 6);
    assert(d.len() == 6);
    let t = seq!['#'] + d;
    assert(t.drop_first() =~= d);
    assert(t[0] == '#');
    lemma_hex_digits(v, upper);
    assert(!is_ws(t.last())) by {
        assert(t.last() == d[5]);
        if hex(v, upper).len() < 6 {
            assert(d == Seq::new((6 - hex(v, upper).len()) as nat, |i: int| '0') + hex(v, upper));
            if 5 >= 6 - hex(v, upper).len() {
                assert(d[5] == hex(v, upper)[5 - (6 - hex(v, upper).len())]);
            }
        }
        assert(digit_of(d[5], 16) is Some) by {
            if hex(v, upper).len() < 6 {
                lemma_leading_zeros((6 - hex(v, upper).len()) as nat, hex(v, upper), 16);
            }
        }
    }
    lemma_trim_unchanged(t);
    assert(t.len() == 7);
    assert(t != "default"@ && t != "terminal"@) by {
        assert("default"@[0] == 'd' && "terminal"@[0] == 't');
    }
    assert((v / 65536) % 256 == r && (v / 256) % 256 == g && v % 256 == b) by (nonlinear_arith)
        requires
            v == (r as nat) * 65536 + (g as nat) * 256 + b as nat,
            r < 256,
            g < 256,
            b < 256,
    ;
}

fn named_exec(t: &Vec<char>) -> (res: Option<u8>)
    ensures
        res == named_index(t@),
{
    if same_str(t, "black") {
        Some(0)
    } else if same_str(t, "red") {
        Some(1)
    } else if same_str(t, "green") {
        Some(2)
    } else if same_str(t, "yellow") {
        Some(3)
    } else if same_str(t, "blue") {
        Some(4)
    } else if same_str(t, "magenta") {
        Some(5)
    } else if same_str(t, "cyan") {
        Some(6)
    } else if same_str(t, "white") {
        Some(7)
    } else {
        None
    }
}

fn palette_exec(t: &Vec<char>, skip: usize) -> (res: Option<u8>)
    requires
        skip <= t@.len(),
    ensures
        res == palette_number(t@, skip as int),
{
    let rest = slice(t, skip, t.len());
    assert(rest@ =~= t@.skip(skip as int));
    match parse_u16(&rest) {
        Some(n) => if n < 256 {
            Some(n as u8)
        } else {
            None
        },
        None => None,
    }
}

/// tmux colour syntax on characters.
fn color_chars(text: &Vec<char>) -> (res: Color)
    ensures
        res == color_of(text@),
{
    let t = trim_chars(text);
    if t.len() == 0 || same_str(&t, "default") || same_str(&t, "terminal") {
        return Color::Default;
    }
    if t[0] == '#' && t.len() == 7 {
        let hex = slice(&t, 1, t.len());
        assert(hex@ =~= t@.drop_first());
        if let Some(value) = parse_hex_u32(&hex) {
            return Color::Rgb(
                ((value / 65536) % 256) as u8,
                ((value / 256) % 256) as u8,
                (value % 256) as u8,
            );
        }
    }
    proof {
        reveal_strlit("colour");
        reveal_strlit("color");
        reveal_strlit("bright");
    }
    if starts_with_str(&t, "colour") {
        if let Some(index) = palette_exec(&t, 6) {
            return Color::Indexed(index);
        }
    }
    if starts_with_str(&t, "color") {
        if let Some(index) = palette_exec(&t, 5) {
            return Color::Indexed(index);
        }
    }
    if let Some(index) = named_exec(&t) {
        return Color::Indexed(index);
    }
    if starts_with_str(&t, "bright") {
        let rest = slice(&t, 6, t.len());
        assert(rest@ =~= t@.skip(6));
        if let Some(index) = named_exec(&rest) {
            return Color::Indexed(index + 8);
        }
    }
    Color::Default
}

/// tmux colour syntax: a name, `colour123`, `#rrggbb`, or `default`.
pub fn parse_color(text: &str) -> (res: Color)
    ensures
        res == color_of(text@),
{
    let v = chars_of(text);
    color_chars(&v)
}

/// What one tmux style token (`fg=red`, `bold`, `none`, ...) does to `style`.
pub open spec fn token_style(style: Style, token: Seq<char>) -> Style {
    let t = trim(token);
    if has_prefix(t, "fg="@) {
        Style { fg: color_of(t.skip("fg="@.len() as int)), ..style }
    } else if has_prefix(t, "bg="@) {
        Style { bg: color_of(t.skip("bg="@.len() as int)), ..style }
    } else if t == "none"@ {
        Style { fg: style.fg, bg: style.bg, ..plain() }
    } else if t == "bold"@ {
        Style { bold: true, ..style }
    } else if t == "nobold"@ {
        Style { bold: false, ..style }
    } else if t == "dim"@ {
        Style { dim: true, ..style }
    } else if t == "nodim"@ {
        Style { dim: false, ..style }
    } else if t == "italics"@ || t == "italic"@ {
        Style { italic: true, ..style }
    } else if t == "noitalics"@ || t == "noitalic"@ {
        Style { italic: false, ..style }
    } else if t == "underscore"@ || t == "underline"@ {
        Style { underline: true, ..style }
    } else if t == "nounderscore"@ || t == "nounderline"@ {
        Style { underline: false, ..style }
    } else if t == "reverse"@ {
        Style { reverse: true, ..style }
    } else if t == "noreverse"@ {
        Style { reverse: false, ..style }
    } else {
        style
    }
}

/// The attribute words of a tmux style: each turns its attribute on, its
/// `no` form turns it off, `none` clears every attribute but keeps the
/// colours, and nothing else changes.
pub proof fn style_words_toggle_attributes(style: Style)
    ensures
        token_style(style, "bold"@) == (Style { bold: true, ..style }),
        token_style(style, "nobold"@) == (Style { bold: false, ..style }),
        token_style(style, "dim"@) == (Style { dim: true, ..style }),
        token_style(style, "nodim"@) == (Style { dim: false, ..style }),
        token_style(style, "italics"@) == (Style { italic: true, ..style }),
        token_style(style, "noitalics"@) == (Style { italic: false, ..style }),
        token_style(style, "underscore"@) == (Style { underline: true, ..style }),
        token_style(style, "nounderscore"@) == (Style { underline: false, ..style }),
        token_style(style, "reverse"@) == (Style { reverse: true, ..style }),
        token_style(style, "noreverse"@) == (Style { reverse: false, ..style }),
        token_style(style, "none"@) == (Style { fg: style.fg, bg: style.bg, ..plain() }),
{
    reveal_strlit("bold");
    reveal_strlit("nobold");
    reveal_strlit("dim");
    reveal_strlit("nodim");
    reveal_strlit("italics");
    reveal_strlit("italic");
    reveal_strlit("noitalics");
    reveal_strlit("noitalic");
    reveal_strlit("underscore");
    reveal_strlit("underline");
    reveal_strlit("nounderscore");
    reveal_strlit("nounderline");
    reveal_strlit("reverse");
    reveal_strlit("noreverse");
    reveal_strlit("none");
    reveal_strlit("fg=");
    reveal_strlit("bg=");
    let words = seq![
        "bold"@, "nobold"@, "dim"@, "nodim"@, "italics"@, "noitalics"@, "underscore"@,
        "nounderscore"@, "reverse"@, "noreverse"@, "none"@
    ];
    assert forall|k: int| 0 <= k < words.len() implies trim(#[trigger] words[k]) == words[k]
        && !has_prefix(words[k], "fg="@) && !has_prefix(words[k], "bg="@) by {
        let w = words[k];
        assert(!is_ws(w[0]) && !is_ws(w.last()));
        lemma_trim_unchanged(w);
        if has_prefix(w, "fg="@) {
            assert(w.take(3)[0] == w[0]);
        }
        if has_prefix(w, "bg="@) {
            assert(w.take(3)[0] == w[0]);
            assert(w.take(3)[1] == w[1]);
        }
    }
    assert(words[0] == "bold"@);
    assert(words[1] == "nobold"@);
    assert(words[2] == "dim"@);
    assert(words[3] == "nodim"@);
    assert(words[4] == "italics"@);
    assert(words[5] == "noitalics"@);
    assert(words[6] == "underscore"@);
    assert(words[7] == "nounderscore"@);
    assert(words[8] == "reverse"@);
    assert(words[9] == "noreverse"@);
    assert(words[10] == "none"@);
}

/// `fg=` sets the foreground and `bg=` the background to the colour that
/// follows, leaving the rest of the style as it was.
pub proof fn colour_words_set_their_side(style: Style, c: Seq<char>)
    requires
        c.len() > 0,
        !is_ws(c.last()),
    ensures
        token_style(style, "fg="@ + c) == (Style { fg: color_of(c), ..style }),
        token_style(style, "bg="@ + c) == (Style { bg: color_of(c), ..style }),
{
    reveal_strlit("fg=");
    reveal_strlit("bg=");
    let f = "fg="@ + c;
    let b = "bg="@ + c;
    assert(f[0] == 'f' && b[0] == 'b');
    assert(f.last() == c.last() && b.last() == c.last());
    lemma_trim_unchanged(f);
    lemma_trim_unchanged(b);
    assert(f.take(3) =~= "fg="@);
    assert(b.take(3) =~= "bg="@);
    assert(f.skip(3) =~= c);
    assert(b.skip(3) =~= c);
    assert(!has_prefix(b, "fg="@)) by {
        assert(b.take(3)[0] == b[0]);
    }
}

/// Fold one tmux style token (`fg=red`, `bold`, `none`, ...) into `style`.
fn apply_token(style: &mut Style, token: &Vec<char>)
    ensures
        *final(style) == token_style(*old(style), token@),
{
    let t = trim_chars(token);
    proof {
        reveal_strlit("fg=");
        reveal_strlit("bg=");
    }
    if starts_with_str(&t, "fg=") {
        let rest = slice(&t, 3, t.len());
        assert(rest@ =~= t@.skip(3));
        style.fg = color_chars(&rest);
    } else if starts_with_str(&t, "bg=") {
        let rest = slice(&t, 3, t.len());
        assert(rest@ =~= t@.skip(3));
        style.bg = color_chars(&rest);
    } else if same_str(&t, "none") {
        *style = Style { fg: style.fg, bg: style.bg, ..Style::default() };
    } else if same_str(&t, "bold") {
        style.bold = true;
    } else if same_str(&t, "nobold") {
        style.bold = false;
    } else if same_str(&t, "dim") {
        style.dim = true;
    } else if same_str(&t, "nodim") {
        style.dim = false;
    } else if same_str(&t, "italics") || same_str(&t, "italic") {
        style.italic = true;
    } else if same_str(&t, "noitalics") || same_str(&t, "noitalic") {
        style.italic = false;
    } else if same_str(&t, "underscore") || same_str(&t, "underline") {
        style.underline = true;
    } else if same_str(&t, "nounderscore") || same_str(&t, "nounderline") {
        style.underline = false;
    } else if same_str(&t, "reverse") {
        style.reverse = true;
    } else if same_str(&t, "noreverse") {
        style.reverse = false;
    }
}

/// The non-empty tokens from `k` on, applied to `style` left to right.
pub open spec fn tokens_from(tokens: Seq<Seq<char>>, k: int, style: Style) -> Style
    decreases tokens.len() - k,
{
    if k < 0 || k >= tokens.len() {
        style
    } else if tokens[k].len() == 0 {
        tokens_from(tokens, k + 1, style)
    } else {
        tokens_from(tokens, k + 1, token_style(style, tokens[k]))
    }
}

/// A tmux style string such as `bg=#181825,fg=#cdd6f4,bold` applied to `base`.
pub open spec fn style_of(text: Seq<char>, base: Style) -> Style {
    tokens_from(split2(text, ',', ' '), 0, base)
}

/// A tmux style string such as `bg=#181825,fg=#cdd6f4,bold`.
pub fn parse_style(text: &str, base: Style) -> (res: Style)
    ensures
        res == style_of(text@, base),
{
    let v = chars_of(text);
    let tokens = split2_chars(&v, ',', ' ');
    let mut style = base;
    let mut k: usize = 0;
    while k < tokens.len()
        invariant
            k <= tokens@.len(),
            views(tokens@) == split2(text@, ',', ' '),
            style_of(text@, base) == tokens_from(views(tokens@), k as int, style),
        decreases tokens@.len() - k,
    {
        assert(views(tokens@)[k as int] == tokens@[k as int]@);
        if tokens[k].len() > 0 {
            apply_token(&mut style, &tokens[k]);
        }
        k += 1;
    }
    style
}


#[derive(Clone, Copy, PartialEq, Eq, Debug, Structural)]
pub enum Align {
    Left,
    Centre,
    Right,
}

/// Where the status-line reader stands: the three sections so far, the
/// section and style in force, the `push-default` stack, and whether the next
/// character is a list marker to drop.
pub struct LineState {
    pub left: Seq<Cell>,
    pub centre: Seq<Cell>,
    pub right: Seq<Cell>,
    pub align: Align,
    pub style: Style,
    pub defaults: Seq<Style>,
    pub skip: bool,
}

/// `st` with one more character in the section in force.
pub open spec fn pushed(st: LineState, ch: char) -> LineState {
    let cell = Cell { ch, style: st.style };
    match st.align {
        Align::Left => LineState { left: st.left.push(cell), ..st },
        Align::Centre => LineState { centre: st.centre.push(cell), ..st },
        Align::Right => LineState { right: st.right.push(cell), ..st },
    }
}

/// What one token inside `#[...]` does.
pub open spec fn directive(st: LineState, t: Seq<char>, base: Style) -> LineState {
    if t == "push-default"@ {
        LineState { defaults: st.defaults.push(st.style), ..st }
    } else if t == "pop-default"@ {
        if st.defaults.len() > 1 {
            LineState { defaults: st.defaults.drop_last(), ..st }
        } else {
            st
        }
    } else if t == "default"@ {
        LineState {
            style: if st.defaults.len() > 0 {
                st.defaults.last()
            } else {
                base
            },
            ..st
        }
    } else if t == "align=left"@ {
        LineState { align: Align::Left, ..st }
    } else if t == "align=centre"@ || t == "align=center"@ {
        LineState { align: Align::Centre, ..st }
    } else if t == "align=right"@ {
        LineState { align: Align::Right, ..st }
    } else if t == "list=left-marker"@ || t == "list=right-marker"@ {
        LineState { skip: true, ..st }
    } else if has_prefix(t, "range="@) || has_prefix(t, "list"@) || t == "norange"@ || t
        == "nolist"@ {
        st
    } else {
        LineState { style: token_style(st.style, t), ..st }
    }
}

/// The non-empty tokens from `k` on, applied as directives.
pub open spec fn directives(tokens: Seq<Seq<char>>, k: int, st: LineState, base: Style) -> LineState
    decreases tokens.len() - k,
{
    if k < 0 || k >= tokens.len() {
        st
    } else if tokens[k].len() == 0 {
        directives(tokens, k + 1, st, base)
    } else {
        directives(tokens, k + 1, directive(st, tokens[k], base), base)
    }
}

/// The body of a `#[` directive starting at `k`: up to the next `]` or the end.
pub open spec fn body_end(m: Seq<char>, k: int) -> int {
    match find_char(m, ']', k) {
        Some(e) => e,
        None => m.len() as int,
    }
}

/// The status-line reader from index `i` on.
pub open spec fn status_scan(m: Seq<char>, i: int, st: LineState, base: Style) -> LineState
    decreases m.len() - i,
{
    if i < 0 || i >= m.len() {
        st
    } else if m[i] == '#' && i + 1 < m.len() && m[i + 1] == '#' {
        status_scan(m, i + 2, pushed(st, '#'), base)
    } else if m[i] == '#' && i + 1 < m.len() && m[i + 1] == '[' {
        proof {
            crate::text::lemma_find_char(m, ']', i + 2);
        }
        let e = body_end(m, i + 2);
        let next = if e < m.len() {
            e + 1
        } else {
            m.len() as int
        };
        status_scan(
            m,
            next,
            directives(split2(m.subrange(i + 2, e), ' ', ','), 0, st, base),
            base,
        )
    } else if st.skip {
        status_scan(m, i + 1, LineState { skip: false, ..st }, base)
    } else {
        status_scan(m, i + 1, pushed(st, m[i]), base)
    }
}

/// The reader before the first character.
pub open spec fn line_start(base: Style) -> LineState {
    LineState {
        left: Seq::empty(),
        centre: Seq::empty(),
        right: Seq::empty(),
        align: Align::Left,
        style: base,
        defaults: seq![base],
        skip: false,
    }
}

/// Column where the centre section starts.
pub open spec fn centre_start(width: nat, n: nat) -> int {
    if width >= n {
        ((width - n) / 2) as int
    } else {
        0
    }
}

/// Column where the right section starts.
pub open spec fn right_start(width: nat, n: nat) -> int {
    if width >= n {
        (width - n) as int
    } else {
        0
    }
}

/// Cell `j` of the finished row: the right section wins over the centre,
/// the centre over the left, and the rest is blank in `base`.
pub open spec fn cell_at(
    left: Seq<Cell>,
    centre: Seq<Cell>,
    right: Seq<Cell>,
    width: nat,
    base: Style,
    j: int,
) -> Cell {
    let rs = right_start(width, right.len());
    let cs = centre_start(width, centre.len());
    if right.len() > 0 && rs <= j < rs + right.len() {
        right[j - rs]
    } else if centre.len() > 0 && cs <= j < cs + centre.len() {
        centre[j - cs]
    } else if j < left.len() {
        left[j]
    } else {
        blank(base)
    }
}

/// The three sections placed across a row of `width` cells.
pub open spec fn laid_out(
    left: Seq<Cell>,
    centre: Seq<Cell>,
    right: Seq<Cell>,
    width: nat,
    base: Style,
) -> Seq<Cell> {
    Seq::new(width, |j: int| cell_at(left, centre, right, width, base, j))
}

/// The row `render_line` makes of `markup`.
pub open spec fn status_row(markup: Seq<char>, width: nat, base: Style) -> Seq<Cell> {
    let st = status_scan(markup, 0, line_start(base), base);
    laid_out(st.left, st.centre, st.right, width, base)
}

struct Sections {
    left: Vec<Cell>,
    centre: Vec<Cell>,
    right: Vec<Cell>,
}

fn push(sections: &mut Sections, align: Align, ch: char, style: Style)
    ensures
        final(sections).left@ == if align == Align::Left {
            old(sections).left@.push(Cell { ch, style })
        } else {
            old(sections).left@
        },
        final(sections).centre@ == if align == Align::Centre {
            old(sections).centre@.push(Cell { ch, style })
        } else {
            old(sections).centre@
        },
        final(sections).right@ == if align == Align::Right {
            old(sections).right@.push(Cell { ch, style })
        } else {
            old(sections).right@
        },
{
    match align {
        Align::Left => sections.left.push(Cell { ch, style }),
        Align::Centre => sections.centre.push(Cell { ch, style }),
        Align::Right => sections.right.push(Cell { ch, style }),
    }
}

/// The ghost picture of the reader's variables.
pub open spec fn state_of(
    sections: (Seq<Cell>, Seq<Cell>, Seq<Cell>),
    align: Align,
    style: Style,
    defaults: Seq<Style>,
    skip: bool,
) -> LineState {
    LineState {
        left: sections.0,
        centre: sections.1,
        right: sections.2,
        align,
        style,
        defaults,
        skip,
    }
}

/// Apply one directive token to the reader's variables.
fn apply_directive(
    token: &Vec<char>,
    align: &mut Align,
    style: &mut Style,
    defaults: &mut Vec<Style>,
    skip: &mut bool,
    base: Style,
)
    ensures
        ({
            let after = directive(
                state_of((Seq::empty(), Seq::empty(), Seq::empty()), *old(align), *old(style), old(defaults)@, *old(skip)),
                token@,
                base,
            );
            &&& *final(align) == after.align
            &&& *final(style) == after.style
            &&& final(defaults)@ == after.defaults
            &&& *final(skip) == after.skip
        }),
{
    proof {
        reveal_strlit("range=");
        reveal_strlit("list");
    }
    if same_str(token, "push-default") {
        defaults.push(*style);
    } else if same_str(token, "pop-default") {
        if defaults.len() > 1 {
            defaults.pop();
        }
    } else if same_str(token, "default") {
        if defaults.len() > 0 {
            *style = defaults[defaults.len() - 1];
        } else {
            *style = base;
        }
    } else if same_str(token, "align=left") {
        *align = Align::Left;
    } else if same_str(token, "align=centre") || same_str(token, "align=center") {
        *align = Align::Centre;
    } else if same_str(token, "align=right") {
        *align = Align::Right;
    } else if same_str(token, "list=left-marker") || same_str(token, "list=right-marker") {
        *skip = true;
    } else if starts_with_str(token, "range=") || starts_with_str(token, "list") || same_str(
        token,
        "norange",
    ) || same_str(token, "nolist") {
    } else {
        apply_token(style, token);
    }
}

/// Place the three sections across the row, right-most winning on collision.
fn lay_out(sections: Sections, width: usize, base: Style) -> (res: Vec<Cell>)
    ensures
        res@ == laid_out(sections.left@, sections.centre@, sections.right@, width as nat, base),
{
    let left = sections.left;
    let centre = sections.centre;
    let right = sections.right;
    let cs: usize = if width >= centre.len() {
        (width - centre.len()) / 2
    } else {
        0
    };
    let rs: usize = if width >= right.len() {
        width - right.len()
    } else {
        0
    };
    let mut row: Vec<Cell> = Vec::new();
    let mut j: usize = 0;
    while j < width
        invariant
            j <= width,
            cs == centre_start(width as nat, centre@.len()),
            rs == right_start(width as nat, right@.len()),
            row@.len() == j,
            forall|k: int|
                0 <= k < j ==> #[trigger] row@[k] == cell_at(
                    left@,
                    centre@,
                    right@,
                    width as nat,
                    base,
                    k,
                ),
        decreases width - j,
    {
        let cell = if right.len() > 0 && rs <= j && j - rs < right.len() {
            right[j - rs]
        } else if centre.len() > 0 && cs <= j && j - cs < centre.len() {
            centre[j - cs]
        } else if j < left.len() {
            left[j]
        } else {
            Cell { ch: ' ', style: base }
        };
        row.push(cell);
        j += 1;
    }
    assert(row@ =~= laid_out(left@, centre@, right@, width as nat, base));
    row
}

/// Turn one expanded `status-format` string into a row of `width` cells.
pub fn render_line(markup: &str, width: usize, base: Style) -> (res: Vec<Cell>)
    ensures
        res@ == status_row(markup@, width as nat, base),
        res@.len() == width,
{
    let m = chars_of(markup);
    let mut sections = Sections { left: Vec::new(), centre: Vec::new(), right: Vec::new() };
    let mut align = Align::Left;
    let mut style = base;
    let mut defaults: Vec<Style> = Vec::new();
    defaults.push(base);
    let mut skip_marker = false;
    let mut i: usize = 0;
    assert(line_start(base) == state_of(
        (sections.left@, sections.centre@, sections.right@),
        align,
        style,
        defaults@,
        skip_marker,
    ));
    while i < m.len()
        invariant
            i <= m@.len(),
            m@ == markup@,
            status_scan(m@, 0, line_start(base), base) == status_scan(
                m@,
                i as int,
                state_of(
                    (sections.left@, sections.centre@, sections.right@),
                    align,
                    style,
                    defaults@,
                    skip_marker,
                ),
                base,
            ),
        decreases m@.len() - i,
    {
        let ghost st = state_of(
            (sections.left@, sections.centre@, sections.right@),
            align,
            style,
            defaults@,
            skip_marker,
        );
        let ch = m[i];
        if ch == '#' && m.len() - i > 1 && m[i + 1] == '#' {
            push(&mut sections, align, '#', style);
            i += 2;
            assert(state_of(
                (sections.left@, sections.centre@, sections.right@),
                align,
                style,
                defaults@,
                skip_marker,
            ) == pushed(st, '#'));
        } else if ch == '#' && m.len() - i > 1 && m[i + 1] == '[' {
            let close = position(&m, ']', i + 2);
            proof {
                crate::text::lemma_find_char(m@, ']', i + 2);
            }
            let e = match close {
                Some(e) => e,
                None => m.len(),
            };
            let body = slice(&m, i + 2, e);
            let tokens = split2_chars(&body, ' ', ',');
            let ghost toks = views(tokens@);
            let mut k: usize = 0;
            while k < tokens.len()
                invariant
                    k <= tokens@.len(),
                    toks == views(tokens@),
                    directives(toks, 0, st, base) == directives(
                        toks,
                        k as int,
                        state_of(
                            (sections.left@, sections.centre@, sections.right@),
                            align,
                            style,
                            defaults@,
                            skip_marker,
                        ),
                        base,
                    ),
                decreases tokens@.len() - k,
            {
                assert(toks[k as int] == tokens@[k as int]@);
                if tokens[k].len() > 0 {
                    apply_directive(
                        &tokens[k],
                        &mut align,
                        &mut style,
                        &mut defaults,
                        &mut skip_marker,
                        base,
                    );
                }
                k += 1;
            }
            i = match close {
                Some(e) => e + 1,
                None => m.len(),
            };
        } else if skip_marker {
            skip_marker = false;
            i += 1;
        } else {
            push(&mut sections, align, ch, style);
            i += 1;
            assert(state_of(
                (sections.left@, sections.centre@, sections.right@),
                align,
                style,
                defaults@,
                skip_marker,
            ) == pushed(st, ch));
        }
    }
    lay_out(sections, width, base)
}
} // verus!

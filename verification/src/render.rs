//! Colours and layout for turning a cell grid into an RGB frame.
//!
//! Three things keep rendering cheap enough for a slow laptop:
//!
//! * every glyph is rasterised once into a coverage mask and then blitted;
//! * consecutive frames are diffed by row, so typing repaints one row;
//! * a run of equally styled cells shares one background fill.
//!
//! This module holds the palette, the colour resolution, the style runs, the
//! row diff and the frame itself; rasterising glyphs is the caller's part.

use vstd::prelude::*;

use crate::ansi::{grid, parse, resolved_style, row_views, Cell, Color, Screen, Style};
use crate::text::{chars_of, join, join_chars, push_chars, string_of, string_views, views};

verus! {

pub type Rgb = [u8; 3];

/// xterm's first 16 entries, the ones a terminal theme actually swaps out.
pub const BASE16: [[u8; 3]; 16] = [
    [0, 0, 0],
    [205, 49, 49],
    [13, 188, 121],
    [229, 229, 16],
    [36, 114, 200],
    [188, 63, 188],
    [17, 168, 205],
    [229, 229, 229],
    [102, 102, 102],
    [241, 76, 76],
    [35, 209, 139],
    [245, 245, 67],
    [59, 142, 234],
    [214, 112, 214],
    [41, 184, 219],
    [255, 255, 255],
];

/// One step of the 6x6x6 colour cube: 0, 95, 135, 175, 215, 255.
pub open spec fn cube_level(k: int) -> u8 {
    if k <= 0 {
        0
    } else {
        (55 + 40 * k) as u8
    }
}

/// Entry `i` of the xterm palette: the 16 base colours, the 6x6x6 cube from
/// 16 on, and a 24-step grey ramp from 232 on.
pub open spec fn xterm_rgb(i: int) -> Seq<u8> {
    if i < 16 {
        BASE16[i]@
    } else if i < 232 {
        let j = i - 16;
        seq![cube_level(j / 36), cube_level((j / 6) % 6), cube_level(j % 6)]
    } else {
        let v = (8 + (i - 232) * 10) as u8;
        seq![v, v, v]
    }
}

fn level(k: usize) -> (res: u8)
    requires
        k < 6,
    ensures
        res == cube_level(k as int),
{
    if k == 0 {
        0
    } else {
        (55 + 40 * k) as u8
    }
}

/// The full 256-entry xterm palette: 16 base, a 6x6x6 cube, a grey ramp.
pub fn xterm256() -> (res: [[u8; 3]; 256])
    ensures
        forall|i: int| 0 <= i < 256 ==> (#[trigger] res@[i])@ == xterm_rgb(i),
{
    let mut palette: [[u8; 3]; 256] = [[0u8; 3]; 256];
    let base = BASE16;
    let mut i: usize = 0;
    while i < 16
        invariant
            i <= 16,
            base == BASE16,
            forall|k: int| 0 <= k < i ==> (#[trigger] palette@[k])@ == xterm_rgb(k),
        decreases 16 - i,
    {
        palette.set(i, base[i]);
        i += 1;
    }
    while i < 232
        invariant
            16 <= i <= 232,
            forall|k: int| 0 <= k < i ==> (#[trigger] palette@[k])@ == xterm_rgb(k),
        decreases 232 - i,
    {
        let j = i - 16;
        let rgb = [level(j / 36), level((j / 6) % 6), level(j % 6)];
        assert(rgb@ =~= xterm_rgb(i as int));
        palette.set(i, rgb);
        i += 1;
    }
    while i < 256
        invariant
            232 <= i <= 256,
            forall|k: int| 0 <= k < i ==> (#[trigger] palette@[k])@ == xterm_rgb(k),
        decreases 256 - i,
    {
        let v = (8 + (i - 232) * 10) as u8;
        let rgb = [v, v, v];
        assert(rgb@ =~= xterm_rgb(i as int));
        palette.set(i, rgb);
        i += 1;
    }
    palette
}

/// The colour a cell colour resolves to: the fallback for the theme default,
/// the value itself for truecolor, a palette entry otherwise, moved to the
/// bright half when bold asks for it and the entry is one of the low eight.
pub open spec fn resolved_rgb(color: Color, fallback: Seq<u8>, bold: bool, palette: Seq<Seq<u8>>) -> Seq<
    u8,
> {
    match color {
        Color::Default => fallback,
        Color::Rgb(r, g, b) => seq![r, g, b],
        Color::Indexed(index) => if bold && index < 8 {
            palette[index + 8]
        } else {
            palette[index as int]
        },
    }
}

/// The colours of a palette, as sequences.
pub open spec fn palette_view(p: [[u8; 3]; 256]) -> Seq<Seq<u8>> {
    p@.map_values(|c: [u8; 3]| c@)
}

pub fn resolve(color: Color, fallback: [u8; 3], bold: bool, palette: &[[u8; 3]; 256]) -> (res: [u8; 3])
    ensures
        res@ == resolved_rgb(color, fallback@, bold, palette_view(*palette)),
{
    match color {
        Color::Default => fallback,
        Color::Rgb(r, g, b) => {
            let res = [r, g, b];
            assert(res@ =~= seq![r, g, b]);
            res
        },
        Color::Indexed(index) => {
            let i: usize = if bold && index < 8 {
                (index + 8) as usize
            } else {
                index as usize
            };
            let res = palette[i];
            assert(palette_view(*palette)[i as int] == palette@[i as int]@);
            res
        },
    }
}

/// The xterm palette past the base colours: entry `16 + 36r + 6g + b` is the
/// colour-cube point whose channels are the levels 0, 95, 135, 175, 215, 255
/// at `r`, `g` and `b`; entry `232 + k` is the grey `8 + 10k`.
pub proof fn xterm_cube_and_greys(r: int, g: int, b: int, k: int)
    requires
        0 <= r < 6,
        0 <= g < 6,
        0 <= b < 6,
        0 <= k < 24,
    ensures
        ({
            let levels = seq![0u8, 95, 135, 175, 215, 255];
            xterm_rgb(16 + 36 * r + 6 * g + b) == seq![levels[r], levels[g], levels[b]]
        }),
        xterm_rgb(232 + k) == seq![(8 + 10 * k) as u8, (8 + 10 * k) as u8, (8 + 10 * k) as u8],
{
    let j = 36 * r + 6 * g + b;
    assert(j / 36 == r && (j / 6) % 6 == g && j % 6 == b) by (nonlinear_arith)
        requires
            j == 36 * r + 6 * g + b,
            0 <= r < 6,
            0 <= g < 6,
            0 <= b < 6,
    ;
    let levels = seq![0u8, 95, 135, 175, 215, 255];
    assert(cube_level(r) == levels[r]);
    assert(cube_level(g) == levels[g]);
    assert(cube_level(b) == levels[b]);
}

/// Blending a channel: no coverage keeps what was there, full coverage gives
/// the colour, and partial coverage gives the coverage-weighted mean rounded
/// down, which lies between the two.
pub proof fn blending_weighs_by_coverage(src: u8, dst: u8, a: u8)
    ensures
        mix(src, dst, 0) == dst,
        mix(src, dst, 255) == src,
        0 < a < 255 ==> 255 * (mix(src, dst, a) as int) <= src * a + dst * (255 - a) < 255 * (mix(src,
            dst,
            a,
        ) as int + 1),
        (src <= mix(src, dst, a) <= dst) || (dst <= mix(src, dst, a) <= src),
{
    if 0 < a < 255 {
        let t = src * a + dst * (255 - a);
        assert(0 <= t <= 255 * 255) by (nonlinear_arith)
            requires
                t == src * a + dst * (255 - a),
                0 < a < 255,
                src <= 255,
                dst <= 255,
        ;
        assert(src <= dst ==> 255 * src <= t <= 255 * dst) by (nonlinear_arith)
            requires
                t == src * a + dst * (255 - a),
                0 < a < 255,
        ;
        assert(dst <= src ==> 255 * dst <= t <= 255 * src) by (nonlinear_arith)
            requires
                t == src * a + dst * (255 - a),
                0 < a < 255,
        ;
        let m = t / 255;
        assert(255 * m <= t < 255 * (m + 1)) by (nonlinear_arith)
            requires
                m == t / 255,
                t >= 0,
        ;
        assert((m as u8) as int == m);
    }
}

/// A glyph is laid over the canvas pixel by pixel: a pixel the bitmap does
/// not reach, or reaches with no coverage, keeps its bytes; one it covers
/// fully takes the colour; one it covers in part takes the blend of the two.
pub proof fn glyph_pixels_blend(
    canvas: Seq<u8>,
    width: nat,
    height: nat,
    coverage: Seq<u8>,
    gw: nat,
    gh: nat,
    x0: int,
    y0: int,
    color: Seq<u8>,
    px: int,
    py: int,
    c: int,
)
    requires
        canvas.len() == width * height * 3,
        coverage.len() == gw * gh,
        0 <= px < width,
        0 <= py < height,
        0 <= c < 3,
    ensures
        ({
            let after = blended(canvas, width, height, coverage, gw, gh, x0, y0, color)[at(
                width as int,
                px,
                py,
                c,
            )];
            let before = canvas[at(width as int, px, py, c)];
            let gx = px - x0;
            let gy = py - y0;
            &&& !(0 <= gx < gw && 0 <= gy < gh) ==> after == before
            &&& (0 <= gx < gw && 0 <= gy < gh) ==> after == mix(color[c], before, coverage[gy * gw + gx])
        }),
        blended(canvas, width, height, coverage, gw, gh, x0, y0, color).len() == canvas.len(),
{
    lemma_at_inverse(width as int, height as int, px, py, c);
}

/// How a cell colour becomes pixels: the theme's default gives the fallback,
/// a truecolor gives its own channels, and a palette index gives its own
/// palette entry; only bold changes that, moving the eight low entries to
/// their bright twins eight places on.
pub proof fn colour_resolution(fallback: [u8; 3], bold: bool, palette: [[u8; 3]; 256], i: u8, r: u8, g: u8, b: u8)
    ensures
        resolved_rgb(Color::Default, fallback@, bold, palette_view(palette)) == fallback@,
        resolved_rgb(Color::Rgb(r, g, b), fallback@, bold, palette_view(palette)) == seq![r, g, b],
        resolved_rgb(Color::Indexed(i), fallback@, false, palette_view(palette)) == palette[i as int]@,
        i >= 8 ==> resolved_rgb(Color::Indexed(i), fallback@, true, palette_view(palette))
            == palette[i as int]@,
        i < 8 ==> resolved_rgb(Color::Indexed(i), fallback@, true, palette_view(palette)) == palette[i
            + 8]@,
{
}

// ---------------------------------------------------------------------------
// Style runs

/// The runs partition the row: they start at 0, each starts where the one
/// before it ends, the last ends at the end of the row, and none is empty.
pub open spec fn runs_cover(runs: Seq<(usize, usize, Style)>, len: int) -> bool {
    &&& (len == 0 <==> runs.len() == 0)
    &&& runs.len() > 0 ==> runs[0].0 == 0
    &&& runs.len() > 0 ==> runs.last().0 + runs.last().1 == len
    &&& forall|k: int| 0 <= k < runs.len() ==> (#[trigger] runs[k]).1 > 0
    &&& forall|k: int|
        0 <= k < runs.len() - 1 ==> #[trigger] runs[k].0 + runs[k].1 == runs[k + 1].0
}

/// Every cell of a run has the run's (resolved) style, and two runs next to
/// each other differ in style.
pub open spec fn runs_styled(runs: Seq<(usize, usize, Style)>, row: Seq<Cell>) -> bool {
    &&& forall|k: int, c: int|
        0 <= k < runs.len() && runs[k].0 <= c < runs[k].0 + runs[k].1 ==> resolved_style(
            #[trigger] row[c].style,
        ) == #[trigger] runs[k].2
    &&& forall|k: int| 0 <= k < runs.len() - 1 ==> #[trigger] runs[k].2 != runs[k + 1].2
}

/// `(start_column, length, style)` for each run of equally styled cells.
pub fn style_runs(row: &[Cell]) -> (res: Vec<(usize, usize, Style)>)
    ensures
        runs_cover(res@, row@.len() as int),
        runs_styled(res@, row@),
{
    let mut runs: Vec<(usize, usize, Style)> = Vec::new();
    if row.len() == 0 {
        return runs;
    }
    let mut start: usize = 0;
    let mut current = row[0].style.resolved();
    let mut col: usize = 1;
    while col < row.len()
        invariant
            0 <= start < col <= row@.len(),
            runs_cover(runs@, start as int),
            runs_styled(runs@, row@),
            runs@.len() > 0 ==> runs@.last().2 != current,
            forall|c: int| start <= c < col ==> resolved_style(#[trigger] row@[c].style) == current,
        decreases row@.len() - col,
    {
        let style = row[col].style.resolved();
        if style != current {
            let ghost before = runs@;
            runs.push((start, col - start, current));
            assert(runs@ == before.push((start, (col - start) as usize, current)));
            assert forall|k: int, c: int|
                0 <= k < runs@.len() && runs@[k].0 <= c < runs@[k].0 + runs@[k].1 implies resolved_style(
                #[trigger] row@[c].style,
            ) == #[trigger] runs@[k].2 by {
                if k < before.len() {
                    assert(runs@[k] == before[k]);
                }
            }
            assert forall|k: int| 0 <= k < runs@.len() - 1 implies #[trigger] runs@[k].2
                != runs@[k + 1].2 by {
                if k < before.len() - 1 {
                    assert(runs@[k] == before[k] && runs@[k + 1] == before[k + 1]);
                }
            }
            assert forall|k: int| 0 <= k < runs@.len() - 1 implies #[trigger] runs@[k].0
                + runs@[k].1 == runs@[k + 1].0 by {
                if k < before.len() - 1 {
                    assert(runs@[k] == before[k] && runs@[k + 1] == before[k + 1]);
                }
            }
            start = col;
            current = style;
        }
        col += 1;
    }
    let ghost before = runs@;
    runs.push((start, row.len() - start, current));
    assert(runs@ == before.push((start, (row@.len() - start) as usize, current)));
    assert forall|k: int, c: int|
        0 <= k < runs@.len() && runs@[k].0 <= c < runs@[k].0 + runs@[k].1 implies resolved_style(
        #[trigger] row@[c].style,
    ) == #[trigger] runs@[k].2 by {
        if k < before.len() {
            assert(runs@[k] == before[k]);
        }
    }
    assert forall|k: int| 0 <= k < runs@.len() - 1 implies #[trigger] runs@[k].2 != runs@[k
        + 1].2 by {
        if k < before.len() - 1 {
            assert(runs@[k] == before[k] && runs@[k + 1] == before[k + 1]);
        }
    }
    assert forall|k: int| 0 <= k < runs@.len() - 1 implies #[trigger] runs@[k].0 + runs@[k].1
        == runs@[k + 1].0 by {
        if k < before.len() - 1 {
            assert(runs@[k] == before[k] && runs@[k + 1] == before[k + 1]);
        }
    }
    runs
}

// ---------------------------------------------------------------------------
// Frames and the row diff

/// One finished frame, ready to be encoded or served.
#[derive(Clone)]
pub struct Frame {
    pub width: usize,
    pub height: usize,
    pub data: Vec<u8>,
}

fn same_row(a: &Vec<Cell>, b: &Vec<Cell>) -> (res: bool)
    ensures
        res == (a@ == b@),
{
    if a.len() != b.len() {
        return false;
    }
    let mut i: usize = 0;
    while i < a.len()
        invariant
            a@.len() == b@.len(),
            i <= a@.len(),
            forall|k: int| 0 <= k < i ==> a@[k] == b@[k],
        decreases a@.len() - i,
    {
        if a[i] != b[i] {
            return false;
        }
        i += 1;
    }
    assert(a@ =~= b@);
    true
}

/// The rows to repaint: those that differ from the previous frame, in order,
/// then the rows the old and the new cursor are on, each once.
pub open spec fn dirty(
    previous: Seq<Seq<Cell>>,
    prev_cursor: Option<(usize, usize)>,
    rows: Seq<Seq<Cell>>,
    height: nat,
    cursor: Option<(usize, usize)>,
) -> Seq<usize> {
    let changed = Seq::new(height, |i: int| i as usize).filter(|i: usize| rows[i as int] != previous[i as int]);
    let with_old = match prev_cursor {
        Some((_, y)) => if y < height && !changed.contains(y) {
            changed.push(y)
        } else {
            changed
        },
        None => changed,
    };
    match cursor {
        Some((_, y)) => if y < height && !with_old.contains(y) {
            with_old.push(y)
        } else {
            with_old
        },
        None => with_old,
    }
}

/// What the incremental repaint rests on, at the level of the cell grid: a
/// row left out of the dirty list holds the same cells as in the previous
/// frame and carries neither the old nor the new cursor; no row is listed
/// twice or lies off the grid. (This says nothing of pixels: a glyph that
/// overhangs its cell into a neighbouring row is not covered by it.)
pub proof fn untouched_rows_are_unchanged(
    previous: Seq<Seq<Cell>>,
    prev_cursor: Option<(usize, usize)>,
    rows: Seq<Seq<Cell>>,
    height: usize,
    cursor: Option<(usize, usize)>,
)
    ensures
        forall|i: usize|
            i < height && !(#[trigger] dirty(previous, prev_cursor, rows, height as nat, cursor).contains(i))
                ==> rows[i as int] == previous[i as int]
                && !(prev_cursor matches Some((_, y)) && y == i)
                && !(cursor matches Some((_, y)) && y == i),
        forall|k: int|
            0 <= k < dirty(previous, prev_cursor, rows, height as nat, cursor).len()
                ==> #[trigger] dirty(previous, prev_cursor, rows, height as nat, cursor)[k] < height,
        dirty(previous, prev_cursor, rows, height as nat, cursor).no_duplicates(),
{
    let all = Seq::new(height as nat, |i: int| i as usize);
    let pred = |i: usize| rows[i as int] != previous[i as int];
    let changed = all.filter(pred);
    let with_old = match prev_cursor {
        Some((_, y)) => if y < height && !changed.contains(y) {
            changed.push(y)
        } else {
            changed
        },
        None => changed,
    };
    let d = dirty(previous, prev_cursor, rows, height as nat, cursor);
    assert(d == match cursor {
        Some((_, y)) => if y < height && !with_old.contains(y) {
            with_old.push(y)
        } else {
            with_old
        },
        None => with_old,
    });
    assert forall|a: int, b: int| 0 <= a < all.len() && 0 <= b < all.len() && a != b implies all[a]
        != all[b] by {
        assert(all[a] == a as usize);
        assert(all[b] == b as usize);
    }
    assert(all.no_duplicates());
    lemma_filter_keeps(all, pred);
    assert forall|k: int| 0 <= k < changed.len() implies #[trigger] changed[k] < height by {
        assert(all.contains(changed[k]));
    }
    assert forall|k: int| 0 <= k < with_old.len() implies #[trigger] with_old[k] < height by {
        if k < changed.len() {
            assert(changed[k] < height);
        }
    }
    assert forall|k: int| 0 <= k < d.len() implies #[trigger] d[k] < height by {
        if k < with_old.len() {
            assert(with_old[k] < height);
        }
    }
    assert(with_old.no_duplicates());
    assert(d.no_duplicates());
    assert forall|i: usize| i < height && !d.contains(i) implies rows[i as int] == previous[i as int]
        && !(prev_cursor matches Some((_, y)) && y == i)
        && !(cursor matches Some((_, y)) && y == i) by {
        assert(all[i as int] == i);
        if rows[i as int] != previous[i as int] {
            all.lemma_filter_contains(pred, i as int);
            assert(changed.contains(i));
            let j = choose|j: int| 0 <= j < changed.len() && changed[j] == i;
            assert(with_old[j] == i);
            assert(d[j] == i);
        }
        if prev_cursor matches Some((_, y)) && y == i {
            if changed.contains(i) {
                let j = choose|j: int| 0 <= j < changed.len() && changed[j] == i;
                assert(with_old[j] == i);
                assert(d[j] == i);
            } else {
                assert(with_old[with_old.len() - 1] == i);
                assert(d[with_old.len() - 1] == i);
            }
        }
        if cursor matches Some((_, y)) && y == i {
            if with_old.contains(i) {
                let j = choose|j: int| 0 <= j < with_old.len() && with_old[j] == i;
                assert(d[j] == i);
            } else {
                assert(d[d.len() - 1] == i);
            }
        }
    }
}

/// A filter of a sequence keeps only its elements, and keeps them distinct
/// when they were.
proof fn lemma_filter_keeps(s: Seq<usize>, p: spec_fn(usize) -> bool)
    ensures
        forall|k: int| 0 <= k < s.filter(p).len() ==> s.contains(#[trigger] s.filter(p)[k]),
        s.no_duplicates() ==> s.filter(p).no_duplicates(),
    decreases s.len(),
{
    reveal(Seq::filter);
    if s.len() > 0 {
        lemma_filter_keeps(s.drop_last(), p);
        assert forall|k: int| 0 <= k < s.filter(p).len() implies s.contains(#[trigger] s.filter(p)[k]) by {
            if k < s.drop_last().filter(p).len() {
                let x = s.drop_last().filter(p)[k];
                let j = choose|j: int| 0 <= j < s.drop_last().len() && s.drop_last()[j] == x;
                assert(s[j] == x);
            } else {
                assert(s[s.len() - 1] == s.filter(p)[k]);
            }
        }
        if s.no_duplicates() {
            assert(s.drop_last().no_duplicates());
            if p(s.last()) {
                assert forall|k: int| 0 <= k < s.drop_last().filter(p).len()
                    implies #[trigger] s.drop_last().filter(p)[k] != s.last() by {
                    let x = s.drop_last().filter(p)[k];
                    let j = choose|j: int| 0 <= j < s.drop_last().len() && s.drop_last()[j] == x;
                    assert(s[j] == x);
                }
            }
        }
    }
}

fn contains_index(v: &Vec<usize>, x: usize) -> (res: bool)
    ensures
        res == v@.contains(x),
{
    let mut i: usize = 0;
    while i < v.len()
        invariant
            i <= v@.len(),
            forall|k: int| 0 <= k < i ==> v@[k] != x,
        decreases v@.len() - i,
    {
        if v[i] == x {
            assert(v@[i as int] == x);
            return true;
        }
        i += 1;
    }
    false
}

/// Rows that differ from the last frame, plus the two the cursor touches.
pub fn dirty_rows(previous: &Vec<Vec<Cell>>, prev_cursor: Option<(usize, usize)>, screen: &Screen) -> (res:
    Vec<usize>)
    requires
        previous@.len() == screen.height,
        screen.rows@.len() == screen.height,
    ensures
        res@ == dirty(
            row_views(previous@),
            prev_cursor,
            row_views(screen.rows@),
            screen.height as nat,
            screen.cursor,
        ),
{
    let ghost pv = row_views(previous@);
    let ghost rv = row_views(screen.rows@);
    let ghost all = Seq::new(screen.height as nat, |i: int| i as usize);
    let ghost pred = |i: usize| rv[i as int] != pv[i as int];
    let mut out: Vec<usize> = Vec::new();
    let mut i: usize = 0;
    while i < screen.height
        invariant
            i <= screen.height,
            previous@.len() == screen.height,
            screen.rows@.len() == screen.height,
            pv == row_views(previous@),
            rv == row_views(screen.rows@),
            all == Seq::new(screen.height as nat, |i: int| i as usize),
            pred == (|i: usize| rv[i as int] != pv[i as int]),
            out@ == all.take(i as int).filter(pred),
        decreases screen.height - i,
    {
        assert(all.take(i + 1).drop_last() =~= all.take(i as int));
        assert(all.take(i + 1).last() == i);
        proof {
            reveal(Seq::filter);
        }
        assert(rv[i as int] == screen.rows@[i as int]@ && pv[i as int] == previous@[i as int]@);
        if !same_row(&screen.rows[i], &previous[i]) {
            out.push(i);
        }
        i += 1;
    }
    assert(all.take(screen.height as int) =~= all);
    match prev_cursor {
        Some((_, y)) => {
            if y < screen.height && !contains_index(&out, y) {
                out.push(y);
            }
        },
        None => {},
    }
    match screen.cursor {
        Some((_, y)) => {
            if y < screen.height && !contains_index(&out, y) {
                out.push(y);
            }
        },
        None => {},
    }
    out
}

/// Where byte `c` of pixel `(x, y)` lies in an RGB canvas `width` pixels wide.
pub open spec fn at(width: int, x: int, y: int, c: int) -> int {
    (y * width + x) * 3 + c
}

/// One channel of `src` laid over `dst` at coverage `a`: `dst` where nothing
/// is covered, `src` where all is, and the weighted mean in between.
pub open spec fn mix(src: u8, dst: u8, a: u8) -> u8 {
    if a == 0 {
        dst
    } else if a == 255 {
        src
    } else {
        ((src * a + dst * (255 - a)) / 255) as u8
    }
}

/// Byte `c` of pixel `(x, y)` once a `gw` x `gh` coverage bitmap is laid over
/// the canvas in `color` with its top-left corner at `(x0, y0)`.
pub open spec fn blit_at(
    canvas: Seq<u8>,
    width: nat,
    coverage: Seq<u8>,
    gw: nat,
    gh: nat,
    x0: int,
    y0: int,
    color: Seq<u8>,
    x: int,
    y: int,
    c: int,
) -> u8 {
    let gx = x - x0;
    let gy = y - y0;
    if 0 <= gx < gw && 0 <= gy < gh {
        mix(color[c], canvas[at(width as int, x, y, c)], coverage[gy * gw + gx])
    } else {
        canvas[at(width as int, x, y, c)]
    }
}

/// The canvas once the bitmap is laid over it: each byte as [`blit_at`]
/// gives it; the part of the bitmap off the canvas is dropped.
pub open spec fn blended(
    canvas: Seq<u8>,
    width: nat,
    height: nat,
    coverage: Seq<u8>,
    gw: nat,
    gh: nat,
    x0: int,
    y0: int,
    color: Seq<u8>,
) -> Seq<u8> {
    Seq::new(
        canvas.len(),
        |i: int|
            if i < width * height * 3 {
                blit_at(canvas, width, coverage, gw, gh, x0, y0, color, (i / 3) % width as int, (i / 3) / width as int, i % 3)
            } else {
                canvas[i]
            },
    )
}

/// Pixels lie at distinct places.
proof fn lemma_at_unique(width: int, x: int, y: int, c: int, x2: int, y2: int, c2: int)
    requires
        0 <= x < width,
        0 <= x2 < width,
        0 <= y,
        0 <= y2,
        0 <= c < 3,
        0 <= c2 < 3,
        at(width, x, y, c) == at(width, x2, y2, c2),
    ensures
        x == x2,
        y == y2,
        c == c2,
{
    let p = y * width + x;
    let p2 = y2 * width + x2;
    assert(p == p2 && c == c2);
    if y < y2 {
        assert(y2 * width >= (y + 1) * width) by (nonlinear_arith)
            requires
                y2 >= y + 1,
                width >= 0,
        ;
        assert((y + 1) * width == y * width + width) by (nonlinear_arith);
    } else if y > y2 {
        assert(y * width >= (y2 + 1) * width) by (nonlinear_arith)
            requires
                y >= y2 + 1,
                width >= 0,
        ;
        assert((y2 + 1) * width == y2 * width + width) by (nonlinear_arith);
    }
}

/// A pixel on the canvas lies inside it.
proof fn lemma_at_bounds(width: int, height: int, x: int, y: int, c: int)
    requires
        0 <= x < width,
        0 <= y < height,
        0 <= c < 3,
    ensures
        0 <= at(width, x, y, c) < width * height * 3,
        at(width, x, y, c) + 3 - c <= width * height * 3,
{
    assert(0 <= y * width) by (nonlinear_arith)
        requires
            0 <= y,
            0 <= width,
    ;
    assert(y * width + x < height * width) by (nonlinear_arith)
        requires
            0 <= x < width,
            0 <= y < height,
    ;
}

/// Every byte of the canvas is some pixel's channel.
proof fn lemma_at_covers(width: int, height: int, i: int)
    requires
        0 <= width,
        0 <= height,
        0 <= i < width * height * 3,
    ensures
        width > 0,
        0 <= (i / 3) % width < width,
        0 <= (i / 3) / width < height,
        i == at(width, (i / 3) % width, (i / 3) / width, i % 3),
{
    assert(width > 0) by (nonlinear_arith)
        requires
            0 <= width,
            0 <= height,
            0 <= i < width * height * 3,
    ;
    let p = i / 3;
    vstd::arithmetic::div_mod::lemma_fundamental_div_mod(i, 3);
    vstd::arithmetic::div_mod::lemma_fundamental_div_mod(p, width);
    let x = p % width;
    let y = p / width;
    assert(0 <= p < width * height);
    assert(0 <= y < height) by (nonlinear_arith)
        requires
            p == width * y + x,
            0 <= x < width,
            0 <= p < width * height,
            width > 0,
    ;
    assert(i == (y * width + x) * 3 + i % 3) by (nonlinear_arith)
        requires
            i == 3 * p + i % 3,
            p == width * y + x,
    ;
}

/// The byte a canvas holds partway through a blit that has done the bitmap's
/// rows above `gy` and the first `gx` pixels of row `gy`.
pub open spec fn blit_upto(
    canvas: Seq<u8>,
    width: nat,
    coverage: Seq<u8>,
    gw: nat,
    gh: nat,
    x0: int,
    y0: int,
    color: Seq<u8>,
    gy: int,
    gx: int,
    x: int,
    y: int,
    c: int,
) -> u8 {
    if y - y0 < gy || (y - y0 == gy && x - x0 < gx) {
        blit_at(canvas, width, coverage, gw, gh, x0, y0, color, x, y, c)
    } else {
        canvas[at(width as int, x, y, c)]
    }
}

/// Alpha-blend a rasterised glyph's coverage bitmap (`gw` x `gh`, one byte
/// per pixel) in `color` into an RGB canvas, its top-left corner at
/// `(x0, y0)`; what falls off the canvas is dropped.
pub fn blit(
    canvas: &mut Vec<u8>,
    width: usize,
    height: usize,
    coverage: &[u8],
    gw: usize,
    gh: usize,
    x0: i64,
    y0: i64,
    color: [u8; 3],
)
    requires
        old(canvas)@.len() == width * height * 3,
        coverage@.len() == gw * gh,
    ensures
        final(canvas)@ == blended(
            old(canvas)@,
            width as nat,
            height as nat,
            coverage@,
            gw as nat,
            gh as nat,
            x0 as int,
            y0 as int,
            color@,
        ),
{
    let ghost orig = canvas@;
    let ghost w = width as int;
    let total = canvas.len();
    let cells = coverage.len();
    let mut gy: usize = 0;
    while gy < gh
        invariant
            gy <= gh,
            orig.len() == width * height * 3,
            canvas@.len() == orig.len(),
            canvas@.len() == total,
            coverage@.len() == gw * gh,
            cells == gw * gh,
            w == width,
            forall|x: int, y: int, c: int|
                0 <= x < width && 0 <= y < height && 0 <= c < 3 ==> canvas@[#[trigger] at(w, x, y, c)]
                    == blit_upto(orig, width as nat, coverage@, gw as nat, gh as nat, x0 as int, y0 as int, color@, gy as int, 0, x, y, c),
        decreases gh - gy,
    {
        let mut gx: usize = 0;
        while gx < gw
            invariant
                gy < gh,
                gx <= gw,
                orig.len() == width * height * 3,
                canvas@.len() == orig.len(),
                canvas@.len() == total,
                coverage@.len() == gw * gh,
                cells == gw * gh,
                w == width,
                forall|x: int, y: int, c: int|
                    0 <= x < width && 0 <= y < height && 0 <= c < 3 ==> canvas@[#[trigger] at(w, x, y, c)]
                        == blit_upto(orig, width as nat, coverage@, gw as nat, gh as nat, x0 as int, y0 as int, color@, gy as int, gx as int, x, y, c),
            decreases gw - gx,
        {
            let y = y0 as i128 + gy as i128;
            let x = x0 as i128 + gx as i128;
            assert(gy * gw + gx < gw * gh) by (nonlinear_arith)
                requires
                    gy < gh,
                    gx < gw,
            ;
            let alpha = coverage[gy * gw + gx];
            assert(gy * gw + gx == gy as int * gw as int + gx as int);
            if 0 <= y && y < height as i128 && 0 <= x && x < width as i128 && alpha != 0 {
                let yu = y as usize;
                let xu = x as usize;
                proof {
                    lemma_at_bounds(w, height as int, xu as int, yu as int, 0);
                }
                let base = (yu * width + xu) * 3;
                let ghost before = canvas@;
                let mut ch: usize = 0;
                while ch < 3
                    invariant
                        ch <= 3,
                        alpha != 0,
                        base == at(w, xu as int, yu as int, 0),
                        base + 3 <= canvas@.len(),
                        canvas@.len() == before.len(),
                        canvas@.len() == total,
                        forall|k: int| 0 <= k < canvas@.len() && !(base <= k < base + ch) ==> canvas@[k] == before[k],
                        forall|k: int| 0 <= k < ch ==> #[trigger] canvas@[base + k] == mix(color@[k], before[base + k], alpha),
                    decreases 3 - ch,
                {
                    let dst = canvas[base + ch];
                    assert(dst == before[base + ch]);
                    let v: u8 = if alpha == 255 {
                        color[ch]
                    } else {
                        let a = alpha as u32;
                        let src = color[ch] as u32;
                        let d = dst as u32;
                        assert(src * a + d * (255 - a) <= 255 * 255) by (nonlinear_arith)
                            requires
                                src <= 255,
                                d <= 255,
                                a <= 255,
                        ;
                        let m = (src * a + d * (255 - a)) / 255;
                        assert(m <= 255);
                        m as u8
                    };
                    assert(v == mix(color@[ch as int], before[base + ch], alpha));
                    canvas.set(base + ch, v);
                    ch += 1;
                }
                proof {
                    assert forall|px: int, py: int, c: int|
                        0 <= px < width && 0 <= py < height && 0 <= c < 3 implies canvas@[#[trigger] at(w, px, py, c)]
                            == blit_upto(orig, width as nat, coverage@, gw as nat, gh as nat, x0 as int, y0 as int, color@, gy as int, gx + 1, px, py, c) by {
                        lemma_at_bounds(w, height as int, px, py, c);
                        if px == xu && py == yu {
                            assert(at(w, px, py, c) == base + c);
                            assert(at(w, px, py, c) == at(w, xu as int, yu as int, c));
                        } else {
                            if base <= at(w, px, py, c) < base + 3 {
                                let k = at(w, px, py, c) - base;
                                assert(at(w, xu as int, yu as int, k) == at(w, px, py, c));
                                lemma_at_unique(w, px, py, c, xu as int, yu as int, k);
                            }
                        }
                    }
                }
            } else {
                proof {
                    assert forall|px: int, py: int, c: int|
                        0 <= px < width && 0 <= py < height && 0 <= c < 3 implies canvas@[#[trigger] at(w, px, py, c)]
                            == blit_upto(orig, width as nat, coverage@, gw as nat, gh as nat, x0 as int, y0 as int, color@, gy as int, gx + 1, px, py, c) by {
                        lemma_at_bounds(w, height as int, px, py, c);
                    }
                }
            }
            gx += 1;
        }
        gy += 1;
    }
    proof {
        let target = blended(orig, width as nat, height as nat, coverage@, gw as nat, gh as nat, x0 as int, y0 as int, color@);
        assert forall|i: int| 0 <= i < canvas@.len() implies canvas@[i] == target[i] by {
            lemma_at_covers(w, height as int, i);
            let px = (i / 3) % w;
            let py = (i / 3) / w;
            assert(canvas@[at(w, px, py, i % 3)] == blit_upto(orig, width as nat, coverage@, gw as nat, gh as nat, x0 as int, y0 as int, color@, gy as int, 0, px, py, i % 3));
        }
        assert(canvas@ =~= target);
    }
}

/// Whether pixel `(px, py)` lies in the `w` x `h` rectangle at `(x, y)`.
pub open spec fn in_rect(x: int, y: int, w: int, h: int, px: int, py: int) -> bool {
    x <= px < x + w && y <= py < y + h
}

/// The canvas with the rectangle's pixels, as far as they lie on it, set to
/// `color`.
pub open spec fn filled(
    canvas: Seq<u8>,
    width: nat,
    height: nat,
    x: int,
    y: int,
    w: int,
    h: int,
    color: Seq<u8>,
) -> Seq<u8> {
    Seq::new(
        canvas.len(),
        |i: int|
            if i < width * height * 3 && in_rect(x, y, w, h, (i / 3) % width as int, (i / 3) / width as int) {
                color[i % 3]
            } else {
                canvas[i]
            },
    )
}

/// Paint the `w` x `h` rectangle at `(x, y)` of an RGB canvas in `color`;
/// the part off the canvas is dropped.
pub fn fill_rect(
    canvas: &mut Vec<u8>,
    width: usize,
    height: usize,
    x: usize,
    y: usize,
    w: usize,
    h: usize,
    color: [u8; 3],
)
    requires
        old(canvas)@.len() == width * height * 3,
        x + w <= usize::MAX,
        y + h <= usize::MAX,
    ensures
        final(canvas)@ == filled(
            old(canvas)@,
            width as nat,
            height as nat,
            x as int,
            y as int,
            w as int,
            h as int,
            color@,
        ),
{
    let ghost orig = canvas@;
    let ghost wi = width as int;
    let total = canvas.len();
    let right = if x + w < width {
        x + w
    } else {
        width
    };
    let bottom = if y + h < height {
        y + h
    } else {
        height
    };
    let mut row = y;
    while row < bottom
        invariant
            y <= row,
            bottom <= height,
            right <= width,
            right == if x + w < width { x + w } else { width as int },
            bottom == if y + h < height { y + h } else { height as int },
            canvas@.len() == orig.len(),
            canvas@.len() == total,
            orig.len() == width * height * 3,
            wi == width,
            forall|px: int, py: int, c: int|
                0 <= px < width && 0 <= py < height && 0 <= c < 3 ==> canvas@[#[trigger] at(wi, px, py, c)]
                    == if in_rect(x as int, y as int, w as int, h as int, px, py) && py < row {
                    color@[c]
                } else {
                    orig[at(wi, px, py, c)]
                },
        decreases bottom - row,
    {
        let mut col = x;
        while col < right
            invariant
                y <= row < bottom,
                x <= col,
                bottom <= height,
                right <= width,
                right == if x + w < width { x + w } else { width as int },
                bottom == if y + h < height { y + h } else { height as int },
                canvas@.len() == orig.len(),
                canvas@.len() == total,
                orig.len() == width * height * 3,
                wi == width,
                forall|px: int, py: int, c: int|
                    0 <= px < width && 0 <= py < height && 0 <= c < 3 ==> canvas@[#[trigger] at(wi, px, py, c)]
                        == if in_rect(x as int, y as int, w as int, h as int, px, py) && (py < row || (py
                        == row && px < col)) {
                        color@[c]
                    } else {
                        orig[at(wi, px, py, c)]
                    },
            decreases right - col,
        {
            proof {
                lemma_at_bounds(wi, height as int, col as int, row as int, 0);
            }
            let base = (row * width + col) * 3;
            let ghost before = canvas@;
            canvas.set(base, color[0]);
            canvas.set(base + 1, color[1]);
            canvas.set(base + 2, color[2]);
            proof {
                assert forall|px: int, py: int, c: int|
                    0 <= px < width && 0 <= py < height && 0 <= c < 3 implies canvas@[#[trigger] at(wi, px, py, c)]
                        == if in_rect(x as int, y as int, w as int, h as int, px, py) && (py < row || (py
                        == row && px < col + 1)) {
                        color@[c]
                    } else {
                        orig[at(wi, px, py, c)]
                    } by {
                    lemma_at_bounds(wi, height as int, px, py, c);
                    if px == col && py == row {
                        assert(at(wi, px, py, c) == base + c);
                    } else if base <= at(wi, px, py, c) < base + 3 {
                        let k = at(wi, px, py, c) - base;
                        assert(at(wi, col as int, row as int, k) == at(wi, px, py, c));
                        lemma_at_unique(wi, px, py, c, col as int, row as int, k);
                    } else {
                        assert(canvas@[at(wi, px, py, c)] == before[at(wi, px, py, c)]);
                    }
                }
            }
            col += 1;
        }
        row += 1;
    }
    proof {
        let target = filled(orig, width as nat, height as nat, x as int, y as int, w as int, h as int, color@);
        assert forall|i: int| 0 <= i < canvas@.len() implies canvas@[i] == target[i] by {
            lemma_at_covers(wi, height as int, i);
            let px = (i / 3) % wi;
            let py = (i / 3) / wi;
            assert(canvas@[at(wi, px, py, i % 3)] == if in_rect(x as int, y as int, w as int, h as int, px, py)
                && py < row {
                color@[i % 3]
            } else {
                orig[at(wi, px, py, i % 3)]
            });
        }
        assert(canvas@ =~= target);
    }
}

/// The place of a pixel's byte, read back: which pixel and channel it is.
proof fn lemma_at_inverse(width: int, height: int, px: int, py: int, c: int)
    requires
        0 <= px < width,
        0 <= py < height,
        0 <= c < 3,
    ensures
        0 <= at(width, px, py, c) < width * height * 3,
        at(width, px, py, c) % 3 == c,
        (at(width, px, py, c) / 3) % width == px,
        (at(width, px, py, c) / 3) / width == py,
{
    lemma_at_bounds(width, height, px, py, c);
    let i = at(width, px, py, c);
    let p = py * width + px;
    assert(i == p * 3 + c);
    vstd::arithmetic::div_mod::lemma_fundamental_div_mod_converse(i, 3, p, c);
    vstd::arithmetic::div_mod::lemma_fundamental_div_mod_converse(p, width, py, px);
}

/// Whether two canvases hold the same bytes in the pixel rows `y0..y1` (as
/// far as they lie on the canvas).
pub open spec fn band_agrees(c1: Seq<u8>, c2: Seq<u8>, width: nat, height: nat, y0: int, y1: int) -> bool {
    forall|px: int, py: int, c: int|
        0 <= px < width && 0 <= py < height && y0 <= py < y1 && 0 <= c < 3 ==> c1[#[trigger] at(width as int, px, py, c)]
            == c2[at(width as int, px, py, c)]
}

/// Whether `after` holds what `before` held everywhere on the canvas outside
/// the pixel rows `y0..y1`.
pub open spec fn same_outside_band(
    before: Seq<u8>,
    after: Seq<u8>,
    width: nat,
    height: nat,
    y0: int,
    y1: int,
) -> bool {
    forall|px: int, py: int, c: int|
        0 <= px < width && 0 <= py < height && !(y0 <= py < y1) && 0 <= c < 3 ==> after[#[trigger] at(
            width as int,
            px,
            py,
            c,
        )] == before[at(width as int, px, py, c)]
}

/// What a row repaint rests on, byte by byte: painting the full width of a
/// band of pixel rows leaves the same bytes in that band whatever the canvas
/// held before, and touches nothing outside it.
pub proof fn painting_a_band_erases_it(
    c1: Seq<u8>,
    c2: Seq<u8>,
    width: nat,
    height: nat,
    y0: int,
    h: int,
    w: int,
    color: Seq<u8>,
)
    requires
        c1.len() == width * height * 3,
        c2.len() == width * height * 3,
        0 <= y0,
        0 <= h,
        width <= w,
    ensures
        band_agrees(
            filled(c1, width, height, 0, y0, w, h, color),
            filled(c2, width, height, 0, y0, w, h, color),
            width,
            height,
            y0,
            y0 + h,
        ),
        same_outside_band(c1, filled(c1, width, height, 0, y0, w, h, color), width, height, y0, y0 + h),
{
    let f1 = filled(c1, width, height, 0, y0, w, h, color);
    let f2 = filled(c2, width, height, 0, y0, w, h, color);
    assert forall|px: int, py: int, c: int|
        0 <= px < width && 0 <= py < height && y0 <= py < y0 + h && 0 <= c < 3 implies f1[#[trigger] at(width as int, px, py, c)]
            == f2[at(width as int, px, py, c)] by {
        lemma_at_inverse(width as int, height as int, px, py, c);
    }
    assert forall|px: int, py: int, c: int|
        0 <= px < width && 0 <= py < height && !(y0 <= py < y0 + h) && 0 <= c < 3 implies f1[#[trigger] at(
            width as int,
            px,
            py,
            c,
        )] == c1[at(width as int, px, py, c)] by {
        lemma_at_inverse(width as int, height as int, px, py, c);
    }
}

/// The other steps of a row repaint keep it local: a rectangle or a glyph
/// laid within the band changes nothing outside it, and what it leaves in
/// the band depends only on what the band held.
pub proof fn drawing_in_a_band_stays_in_it(
    c1: Seq<u8>,
    c2: Seq<u8>,
    width: nat,
    height: nat,
    y0: int,
    y1: int,
    rect: (int, int, int, int),
    coverage: Seq<u8>,
    gw: nat,
    gh: nat,
    gx0: int,
    gy0: int,
    color: Seq<u8>,
)
    requires
        c1.len() == width * height * 3,
        c2.len() == width * height * 3,
        y0 <= rect.1,
        0 <= rect.3,
        rect.1 + rect.3 <= y1,
        y0 <= gy0,
        gy0 + gh <= y1,
        band_agrees(c1, c2, width, height, y0, y1),
    ensures
        band_agrees(
            filled(c1, width, height, rect.0, rect.1, rect.2, rect.3, color),
            filled(c2, width, height, rect.0, rect.1, rect.2, rect.3, color),
            width,
            height,
            y0,
            y1,
        ),
        same_outside_band(
            c1,
            filled(c1, width, height, rect.0, rect.1, rect.2, rect.3, color),
            width,
            height,
            y0,
            y1,
        ),
        band_agrees(
            blended(c1, width, height, coverage, gw, gh, gx0, gy0, color),
            blended(c2, width, height, coverage, gw, gh, gx0, gy0, color),
            width,
            height,
            y0,
            y1,
        ),
        same_outside_band(
            c1,
            blended(c1, width, height, coverage, gw, gh, gx0, gy0, color),
            width,
            height,
            y0,
            y1,
        ),
{
    let (x, y, w, h) = rect;
    let f1 = filled(c1, width, height, x, y, w, h, color);
    let f2 = filled(c2, width, height, x, y, w, h, color);
    let b1 = blended(c1, width, height, coverage, gw, gh, gx0, gy0, color);
    let b2 = blended(c2, width, height, coverage, gw, gh, gx0, gy0, color);
    assert forall|px: int, py: int, c: int|
        0 <= px < width && 0 <= py < height && y0 <= py < y1 && 0 <= c < 3 implies f1[#[trigger] at(width as int, px, py, c)]
            == f2[at(width as int, px, py, c)] && b1[at(width as int, px, py, c)] == b2[at(
            width as int,
            px,
            py,
            c,
        )] by {
        assert(c1[at(width as int, px, py, c)] == c2[at(width as int, px, py, c)]);
        lemma_at_inverse(width as int, height as int, px, py, c);
    }
    assert forall|px: int, py: int, c: int|
        0 <= px < width && 0 <= py < height && !(y0 <= py < y1) && 0 <= c < 3 implies f1[#[trigger] at(
            width as int,
            px,
            py,
            c,
        )] == c1[at(width as int, px, py, c)] && b1[at(width as int, px, py, c)] == c1[at(
            width as int,
            px,
            py,
            c,
        )] by {
        lemma_at_inverse(width as int, height as int, px, py, c);
    }
}

/// The four bars of the cursor box drawn in the cell whose top-left pixel is
/// `(x, y)`: two pixels thick, top, bottom, left and right.
pub open spec fn cursor_bars(x: int, y: int, cw: int, ch: int) -> Seq<(int, int, int, int)> {
    let bottom = if ch >= 2 { y + ch - 2 } else { y };
    let right = if cw >= 2 { x + cw - 2 } else { x };
    seq![(x, y, cw, 2), (x, bottom, cw, 2), (x, y, 2, ch), (right, y, 2, ch)]
}

/// The canvas with the rectangles `rs` painted in `color`, in order.
pub open spec fn filled_all(
    canvas: Seq<u8>,
    width: nat,
    height: nat,
    rs: Seq<(int, int, int, int)>,
    color: Seq<u8>,
) -> Seq<u8>
    decreases rs.len(),
{
    if rs.len() == 0 {
        canvas
    } else {
        let r = rs.last();
        filled(filled_all(canvas, width, height, rs.drop_last(), color), width, height, r.0, r.1, r.2, r.3, color)
    }
}

/// Outline the `cw` x `ch` cell whose top-left pixel is `(x, y)` in `color`.
pub fn draw_cursor_box(
    canvas: &mut Vec<u8>,
    width: usize,
    height: usize,
    x: usize,
    y: usize,
    cw: usize,
    ch: usize,
    color: [u8; 3],
)
    requires
        old(canvas)@.len() == width * height * 3,
        x + cw + 2 <= usize::MAX,
        y + ch + 2 <= usize::MAX,
    ensures
        final(canvas)@ == filled_all(
            old(canvas)@,
            width as nat,
            height as nat,
            cursor_bars(x as int, y as int, cw as int, ch as int),
            color@,
        ),
{
    let ghost orig = canvas@;
    let ghost bars = cursor_bars(x as int, y as int, cw as int, ch as int);
    let bottom = y + if ch >= 2 { ch - 2 } else { 0 };
    let right = x + if cw >= 2 { cw - 2 } else { 0 };
    fill_rect(canvas, width, height, x, y, cw, 2, color);
    fill_rect(canvas, width, height, x, bottom, cw, 2, color);
    fill_rect(canvas, width, height, x, y, 2, ch, color);
    fill_rect(canvas, width, height, right, y, 2, ch, color);
    proof {
        assert(bars.drop_last().drop_last().drop_last().drop_last() =~= Seq::<(int, int, int, int)>::empty());
        assert(bars.drop_last().drop_last().drop_last() =~= seq![bars[0]]);
        assert(bars.drop_last().drop_last() =~= seq![bars[0], bars[1]]);
        assert(bars.drop_last() =~= seq![bars[0], bars[1], bars[2]]);
        reveal_with_fuel(filled_all, 5);
    }
}

/// Rectangles painted within a band, in any number, keep to it: nothing
/// outside changes, and what the band ends with depends only on what it held.
pub proof fn rects_in_a_band_stay_in_it(
    c1: Seq<u8>,
    c2: Seq<u8>,
    width: nat,
    height: nat,
    y0: int,
    y1: int,
    rs: Seq<(int, int, int, int)>,
    color: Seq<u8>,
)
    requires
        c1.len() == width * height * 3,
        c2.len() == width * height * 3,
        forall|k: int| 0 <= k < rs.len() ==> y0 <= (#[trigger] rs[k]).1 && 0 <= rs[k].3 && rs[k].1 + rs[k].3 <= y1,
        band_agrees(c1, c2, width, height, y0, y1),
    ensures
        band_agrees(filled_all(c1, width, height, rs, color), filled_all(c2, width, height, rs, color), width, height, y0, y1),
        same_outside_band(c1, filled_all(c1, width, height, rs, color), width, height, y0, y1),
        filled_all(c1, width, height, rs, color).len() == c1.len(),
        filled_all(c2, width, height, rs, color).len() == c2.len(),
    decreases rs.len(),
{
    if rs.len() > 0 {
        let init = rs.drop_last();
        assert forall|k: int| 0 <= k < init.len() implies y0 <= (#[trigger] init[k]).1 && 0 <= init[k].3 && init[k].1 + init[k].3 <= y1 by {
            assert(init[k] == rs[k]);
        }
        rects_in_a_band_stay_in_it(c1, c2, width, height, y0, y1, init, color);
        let d1 = filled_all(c1, width, height, init, color);
        let d2 = filled_all(c2, width, height, init, color);
        let r = rs.last();
        assert(rs[rs.len() - 1] == r);
        drawing_in_a_band_stays_in_it(d1, d2, width, height, y0, y1, r, Seq::empty(), 0, 0, 0, y0, color);
        let e1 = filled_all(c1, width, height, rs, color);
        assert forall|px: int, py: int, c: int|
            0 <= px < width && 0 <= py < height && !(y0 <= py < y1) && 0 <= c < 3 implies e1[#[trigger] at(
                width as int,
                px,
                py,
                c,
            )] == c1[at(width as int, px, py, c)] by {
            assert(e1[at(width as int, px, py, c)] == d1[at(width as int, px, py, c)]);
        }
    }
}

/// The cursor box stays in its own row of cells: drawn in a cell at least two
/// pixels tall, it changes nothing outside the cell's pixel rows.
pub proof fn the_cursor_stays_in_its_row(
    canvas: Seq<u8>,
    width: nat,
    height: nat,
    x: int,
    y: int,
    cw: int,
    ch: int,
    color: Seq<u8>,
)
    requires
        canvas.len() == width * height * 3,
        ch >= 2,
        cw >= 0,
    ensures
        same_outside_band(
            canvas,
            filled_all(canvas, width, height, cursor_bars(x, y, cw, ch), color),
            width,
            height,
            y,
            y + ch,
        ),
{
    let bars = cursor_bars(x, y, cw, ch);
    assert forall|k: int| 0 <= k < bars.len() implies y <= (#[trigger] bars[k]).1 && 0 <= bars[k].3 && bars[k].1 + bars[k].3 <= y + ch by {
    }
    rects_in_a_band_stay_in_it(canvas, canvas, width, height, y, y + ch, bars, color);
}

/// The lines a card shows: its title, a blank line, then the rest.
pub open spec fn card_lines(title: Seq<char>, lines: Seq<Seq<char>>) -> Seq<Seq<char>> {
    seq![title, Seq::<char>::empty()] + lines
}

/// The length of the longest of `ls`, 0 when there is none.
pub open spec fn longest(ls: Seq<Seq<char>>) -> nat
    decreases ls.len(),
{
    if ls.len() == 0 {
        0
    } else if ls.last().len() > longest(ls.drop_last()) {
        ls.last().len()
    } else {
        longest(ls.drop_last())
    }
}

/// Each line indented by two spaces.
pub open spec fn indented(ls: Seq<Seq<char>>) -> Seq<Seq<char>> {
    ls.map_values(|l: Seq<char>| seq![' ', ' '] + l)
}

/// The text a card is drawn from: an empty first line, then the lines,
/// indented, one per line.
pub open spec fn card_text(ls: Seq<Seq<char>>) -> Seq<char> {
    seq!['\n'] + join(indented(ls), seq!['\n'])
}

/// The screen of a standalone card ("waiting for a pane" and the like): the
/// title, a blank line and the lines, two columns in from the left and one row
/// down, on a grid two rows taller and four columns wider than the text.
pub fn message_screen(title: &str, lines: &[String]) -> (res: Screen)
    requires
        lines@.len() + 3 <= usize::MAX,
        title@.len() + 4 <= usize::MAX,
        forall|i: int| 0 <= i < lines@.len() ==> (#[trigger] lines@[i])@.len() + 4 <= usize::MAX,
    ensures
        res.width == longest(card_lines(title@, string_views(lines@))) + 4,
        res.height == lines@.len() + 3,
        res.cursor is None,
        res.rows@.len() == res.height,
        row_views(res.rows@) == grid(
            card_text(card_lines(title@, string_views(lines@))),
            res.width as nat,
            res.height as nat,
        ),
{
    let ghost all = card_lines(title@, string_views(lines@));
    let mut shown: Vec<Vec<char>> = Vec::new();
    let mut pieces: Vec<Vec<char>> = Vec::new();
    let mut widest: usize = 0;
    let mut k: usize = 0;
    let count = lines.len() + 2;
    while k < count
        invariant
            count == all.len(),
            all == card_lines(title@, string_views(lines@)),
            k <= count,
            views(shown@) == all.take(k as int),
            views(pieces@) == indented(all.take(k as int)),
            widest == longest(all.take(k as int)),
            widest + 4 <= usize::MAX,
            forall|i: int| 0 <= i < all.len() ==> (#[trigger] all[i]).len() + 4 <= usize::MAX,
        decreases count - k,
    {
        let line: Vec<char> = if k == 0 {
            chars_of(title)
        } else if k == 1 {
            Vec::new()
        } else {
            chars_of(lines[k - 2].as_str())
        };
        proof {
            if k == 0 {
                assert(line@ == all[0]);
            } else if k == 1 {
                assert(line@ =~= all[1]);
            } else {
                assert(all[k as int] == string_views(lines@)[k - 2]);
            }
        }
        let mut piece: Vec<char> = Vec::new();
        piece.push(' ');
        piece.push(' ');
        push_chars(&mut piece, &line);
        assert(piece@ =~= seq![' ', ' '] + line@);
        if line.len() > widest {
            widest = line.len();
        }
        let ghost before = all.take(k as int);
        let ghost old_pieces = pieces@;
        let ghost new_piece = piece@;
        assert(line@ == all[k as int]);
        assert(views(old_pieces).len() == old_pieces.len());
        assert(indented(before).len() == before.len());
        assert(old_pieces.len() == k);
        shown.push(line);
        pieces.push(piece);
        k += 1;
        proof {
            let now = all.take(k as int);
            assert(now.drop_last() =~= before);
            assert(views(shown@) =~= now);
            assert(pieces@.len() == k);
            assert forall|i: int| 0 <= i < now.len() implies #[trigger] views(pieces@)[i]
                == indented(now)[i] by {
                if i < k - 1 {
                    assert(pieces@[i] == old_pieces[i]);
                    assert(views(old_pieces)[i] == indented(before)[i]);
                } else {
                    assert(pieces@[i]@ == new_piece);
                }
            }
            assert(views(pieces@) =~= indented(now));
        }
    }
    proof {
        assert(all.take(count as int) =~= all);
    }
    let mut sep: Vec<char> = Vec::new();
    sep.push('\n');
    let body = join_chars(&pieces, &sep);
    let mut text: Vec<char> = Vec::new();
    text.push('\n');
    push_chars(&mut text, &body);
    let s = string_of(&text);
    assert(s@ == card_text(all));
    parse(s.as_str(), widest + 4, count + 1)
}

} // verus!

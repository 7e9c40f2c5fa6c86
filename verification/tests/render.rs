use ttycast::ansi::{parse, Cell, Color, Screen, Style};
use ttycast::render::{blit, dirty_rows, draw_cursor_box, fill_rect, message_screen, resolve, style_runs, xterm256, BASE16};

#[test]
fn palette_has_all_256_entries() {
    let palette = xterm256();
    assert_eq!(palette[..16], BASE16);
    assert_eq!(palette[196], [255, 0, 0]);
    assert_eq!(palette[255], [238, 238, 238]);
}

#[test]
fn resolve_falls_back_to_the_theme_default() {
    let palette = xterm256();
    assert_eq!(
        resolve(Color::Default, [1, 2, 3], false, &palette),
        [1, 2, 3]
    );
    assert_eq!(
        resolve(Color::Rgb(9, 9, 9), [1, 2, 3], false, &palette),
        [9, 9, 9]
    );
}

#[test]
fn bold_brightens_the_low_eight_only() {
    let palette = xterm256();
    assert_eq!(
        resolve(Color::Indexed(1), [0; 3], true, &palette),
        BASE16[9]
    );
    assert_eq!(
        resolve(Color::Indexed(9), [0; 3], true, &palette),
        BASE16[9]
    );
}

#[test]
fn style_runs_group_adjacent_cells() {
    let screen = parse("\x1b[31mred\x1b[0m and more", 20, 1);
    let runs = style_runs(&screen.rows[0]);
    assert_eq!(runs.iter().map(|r| r.1).sum::<usize>(), 20);
    assert_eq!(runs[0].0, 0);
    assert_eq!(runs[0].1, 3);
}

#[test]
fn the_cube_and_the_ramp_have_xterm_values() {
    let palette = xterm256();
    assert_eq!(palette[16], [0, 0, 0]);
    assert_eq!(palette[21], [0, 0, 255]);
    assert_eq!(palette[231], [255, 255, 255]);
    assert_eq!(palette[232], [8, 8, 8]);
    assert_eq!(palette[244], [128, 128, 128]);
}

#[test]
fn reverse_cells_run_with_their_resolved_style() {
    let plain = Style::default();
    let reversed = Style { reverse: true, fg: Color::Indexed(1), ..plain };
    let row = vec![
        Cell { ch: 'a', style: plain },
        Cell { ch: 'b', style: reversed },
        Cell { ch: 'c', style: reversed },
    ];
    let runs = style_runs(&row);
    assert_eq!(runs.len(), 2);
    assert_eq!((runs[1].0, runs[1].1), (1, 2));
    assert!(!runs[1].2.reverse);
    assert_eq!(runs[1].2.bg, Color::Indexed(1));
    // Reversing the theme defaults changes nothing, so it joins the plain run.
    let swapped_defaults = Style { reverse: true, ..plain };
    let row = vec![Cell { ch: 'a', style: plain }, Cell { ch: 'b', style: swapped_defaults }];
    assert_eq!(style_runs(&row).len(), 1);
    assert!(style_runs(&[]).is_empty());
}

#[test]
fn only_changed_rows_and_cursor_rows_are_dirty() {
    let before = parse("one\ntwo\nthree", 5, 3);
    let mut after = parse("one\nTWO\nthree", 5, 3);
    after.cursor = Some((0, 2));
    assert_eq!(dirty_rows(&before.rows, Some((0, 1)), &after), vec![1, 2]);
    let same: Screen = parse("one\ntwo\nthree", 5, 3);
    assert_eq!(dirty_rows(&before.rows, None, &Screen { cursor: None, ..same }), Vec::<usize>::new());
}

fn row_text(screen: &Screen, row: usize) -> String {
    screen.rows[row].iter().map(|c| c.ch).collect()
}

#[test]
fn a_message_card_is_laid_out_with_a_margin() {
    let screen = message_screen("ttycast", &["no pane to mirror".to_string()]);
    assert_eq!(screen.width, 21);
    assert_eq!(screen.height, 4);
    assert!(screen.cursor.is_none());
    assert_eq!(row_text(&screen, 0), " ".repeat(21));
    assert_eq!(row_text(&screen, 1), "  ttycast            ");
    assert_eq!(row_text(&screen, 2), " ".repeat(21));
    assert_eq!(row_text(&screen, 3), "  no pane to mirror  ");
}

#[test]
fn a_card_is_as_wide_as_its_title_when_the_title_is_longest() {
    let screen = message_screen("waiting for a pane", &[]);
    assert_eq!(screen.width, 22);
    assert_eq!(screen.height, 3);
}

#[test]
fn rows_left_out_of_the_repaint_are_unchanged() {
    let before: Screen = parse("a\nb\nc\nd\ne", 4, 5);
    let mut after: Screen = parse("a\nB\nc\nD\ne", 4, 5);
    after.cursor = Some((0, 4));
    let dirty = dirty_rows(&before.rows, Some((1, 0)), &after);
    assert_eq!(dirty, vec![1, 3, 0, 4]);
    for row in 0..5 {
        if !dirty.contains(&row) {
            assert_eq!(before.rows[row], after.rows[row]);
        }
    }
}

#[test]
fn a_glyph_is_blended_by_its_coverage_and_clipped_to_the_canvas() {
    // 3x2 canvas of grey 100; a 2x2 bitmap placed one pixel off the right edge.
    let mut canvas = vec![100u8; 3 * 2 * 3];
    let coverage = [255u8, 0, 51, 255];
    blit(&mut canvas, 3, 2, &coverage, 2, 2, 2, 0, [200, 0, 255]);
    // (2,0): full coverage paints the colour.
    assert_eq!(&canvas[6..9], &[200, 0, 255]);
    // (2,1): coverage 51 mixes 1/5 of the colour into the grey.
    assert_eq!(&canvas[15..18], &[120, 80, 131]);
    // Everything else is untouched; the bitmap's right column fell off the canvas.
    for (i, byte) in canvas.iter().enumerate() {
        if !(6..9).contains(&i) && !(15..18).contains(&i) {
            assert_eq!(*byte, 100, "byte {i}");
        }
    }
    // Placed above and left of the canvas only its bottom-right pixel lands.
    let mut canvas = vec![0u8; 2 * 2 * 3];
    blit(&mut canvas, 2, 2, &coverage, 2, 2, -1, -1, [9, 9, 9]);
    assert_eq!(canvas, vec![9, 9, 9, 0, 0, 0, 0, 0, 0, 0, 0, 0]);
}

#[test]
fn a_rectangle_is_painted_where_it_lies_on_the_canvas() {
    let mut canvas = vec![0u8; 3 * 2 * 3];
    fill_rect(&mut canvas, 3, 2, 1, 1, 5, 5, [7, 8, 9]);
    assert_eq!(canvas, vec![0, 0, 0, 0, 0, 0, 0, 0, 0, 0, 0, 0, 7, 8, 9, 7, 8, 9]);
    let mut canvas = vec![1u8; 2 * 2 * 3];
    fill_rect(&mut canvas, 2, 2, 2, 0, 3, 3, [5, 5, 5]);
    assert_eq!(canvas, vec![1u8; 12]);
}

#[test]
fn repainting_a_row_band_forgets_what_it_held() {
    // Two 2x3 canvases that differ everywhere; repaint the middle pixel row.
    let mut a = vec![10u8; 2 * 3 * 3];
    let mut b = vec![200u8; 2 * 3 * 3];
    for canvas in [&mut a, &mut b] {
        fill_rect(canvas, 2, 3, 0, 1, 2, 1, [1, 2, 3]);
        blit(canvas, 2, 3, &[128], 1, 1, 1, 1, [255, 255, 255]);
    }
    assert_eq!(&a[6..12], &b[6..12]);
    assert_eq!(&a[6..12], &[1, 2, 3, 128, 128, 129]);
    assert!(a[..6].iter().chain(&a[12..]).all(|&v| v == 10));
    assert!(b[..6].iter().chain(&b[12..]).all(|&v| v == 200));
}

#[test]
fn the_cursor_is_a_two_pixel_outline_of_its_cell() {
    // A 6x6 canvas; the cursor cell is 5x5 at (1, 1).
    let mut canvas = vec![0u8; 6 * 6 * 3];
    draw_cursor_box(&mut canvas, 6, 6, 1, 1, 5, 5, [9, 9, 9]);
    let lit: Vec<bool> = canvas.chunks(3).map(|p| p[0] == 9).collect();
    for y in 0..6 {
        for x in 0..6 {
            let inside = (1..6).contains(&x) && (1..6).contains(&y);
            let on_bar = y <= 2 || y >= 4 || x <= 2 || x >= 4;
            assert_eq!(lit[y * 6 + x], inside && on_bar, "pixel ({x}, {y})");
        }
    }
}

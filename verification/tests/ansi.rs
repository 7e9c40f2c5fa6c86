use ttycast::ansi::{apply_sgr, parse, Color, Screen, Style};

fn text_of(screen: &Screen, row: usize) -> String {
    screen.rows[row].iter().map(|c| c.ch).collect()
}

#[test]
fn plain_text_is_padded_to_the_grid() {
    let screen = parse("hi", 5, 2);
    assert_eq!(screen.width, 5);
    assert_eq!(text_of(&screen, 0), "hi   ");
    assert_eq!(text_of(&screen, 1), "     ");
}

#[test]
fn long_lines_are_cut_to_the_grid() {
    assert_eq!(text_of(&parse("abcdefgh", 3, 1), 0), "abc");
}

#[test]
fn basic_colors() {
    let screen = parse("\x1b[31mred\x1b[0mplain", 8, 1);
    assert_eq!(screen.rows[0][0].style.fg, Color::Indexed(1));
    assert_eq!(screen.rows[0][3].style, Style::default());
}

#[test]
fn bright_colors_map_to_the_upper_eight() {
    assert_eq!(
        parse("\x1b[91mx", 1, 1).rows[0][0].style.fg,
        Color::Indexed(9)
    );
}

#[test]
fn indexed_and_truecolor() {
    let screen = parse("\x1b[38;5;196ma\x1b[48;2;10;20;30mb", 2, 1);
    assert_eq!(screen.rows[0][0].style.fg, Color::Indexed(196));
    assert_eq!(screen.rows[0][1].style.bg, Color::Rgb(10, 20, 30));
}

#[test]
fn subparameter_form_is_accepted() {
    assert_eq!(
        parse("\x1b[38:2:1:2:3mx", 1, 1).rows[0][0].style.fg,
        Color::Rgb(1, 2, 3)
    );
}

#[test]
fn attributes_toggle_independently() {
    let style = apply_sgr(Style::default(), &[1, 4, 7]);
    assert!(style.bold && style.underline && style.reverse);
    let style = apply_sgr(style, &[22]);
    assert!(!style.bold);
    assert!(style.underline);
}

#[test]
fn reset_clears_everything() {
    let style = apply_sgr(
        Style {
            fg: Color::Indexed(3),
            bold: true,
            ..Style::default()
        },
        &[0],
    );
    assert_eq!(style, Style::default());
}

#[test]
fn reverse_is_baked_into_colors() {
    let style = Style {
        fg: Color::Indexed(1),
        bg: Color::Indexed(2),
        reverse: true,
        ..Style::default()
    }
    .resolved();
    assert_eq!(style.fg, Color::Indexed(2));
    assert_eq!(style.bg, Color::Indexed(1));
    assert!(!style.reverse);
}

#[test]
fn non_sgr_sequences_are_dropped() {
    assert_eq!(text_of(&parse("a\x1b[2Kb", 3, 1), 0), "ab ");
}

#[test]
fn osc_sequences_are_dropped() {
    assert_eq!(text_of(&parse("\x1b]0;window title\x07ok", 2, 1), 0), "ok");
}

#[test]
fn style_survives_a_line_break() {
    assert_eq!(
        parse("\x1b[32ma\nb", 1, 2).rows[1][0].style.fg,
        Color::Indexed(2)
    );
}

#[test]
fn tabs_expand_to_the_next_stop() {
    assert_eq!(text_of(&parse("a\tb", 10, 1), 0), "a       b ");
}

#[test]
fn identical_input_yields_identical_grids() {
    assert_eq!(parse("a", 2, 1), parse("a", 2, 1));
    assert_ne!(parse("a", 2, 1), parse("b", 2, 1));
    assert_ne!(parse("a", 2, 1), parse("\x1b[31ma", 2, 1));
}

#[test]
fn a_truncated_escape_does_not_hang() {
    assert_eq!(text_of(&parse("ok\x1b[3", 4, 1), 0), "ok  ");
}

#[test]
fn a_charset_designation_puts_nothing_on_screen() {
    assert_eq!(text_of(&parse("\x1b(Bok", 3, 1), 0), "ok ");
    assert_eq!(text_of(&parse("a\x1b7b\x1b8c", 3, 1), 0), "abc");
}

#[test]
fn an_osc_ended_by_st_puts_nothing_on_screen() {
    assert_eq!(text_of(&parse("\x1b]0;t\x1b\\ok", 3, 1), 0), "ok ");
}

#[test]
fn an_escape_cut_off_by_the_line_end_is_dropped() {
    assert_eq!(text_of(&parse("ok\x1b", 3, 1), 0), "ok ");
    assert_eq!(text_of(&parse("ok\x1b(", 3, 1), 0), "ok ");
}

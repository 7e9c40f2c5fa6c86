use ttycast::ansi::{Cell, Color, Style};
use ttycast::status::{parse_color, parse_style, render_line};

fn text_of(row: &[Cell]) -> String {
    row.iter().map(|c| c.ch).collect()
}

#[test]
fn colours_cover_every_tmux_spelling() {
    assert_eq!(parse_color("#89b4fa"), Color::Rgb(0x89, 0xb4, 0xfa));
    assert_eq!(parse_color("colour123"), Color::Indexed(123));
    assert_eq!(parse_color("color7"), Color::Indexed(7));
    assert_eq!(parse_color("red"), Color::Indexed(1));
    assert_eq!(parse_color("brightblue"), Color::Indexed(12));
    assert_eq!(parse_color("default"), Color::Default);
    assert_eq!(parse_color("nonsense"), Color::Default);
}

#[test]
fn a_status_style_string_parses() {
    let style = parse_style("bg=#181825,fg=#cdd6f4,bold", Style::default());
    assert_eq!(style.bg, Color::Rgb(0x18, 0x18, 0x25));
    assert_eq!(style.fg, Color::Rgb(0xcd, 0xd6, 0xf4));
    assert!(style.bold);
}

#[test]
fn plain_text_lands_on_the_left_and_the_row_is_padded() {
    let row = render_line("hello", 10, Style::default());
    assert_eq!(text_of(&row), "hello     ");
}

#[test]
fn the_three_sections_are_placed_across_the_width() {
    let row = render_line(
        "#[align=left]L#[align=centre]C#[align=right]R",
        11,
        Style::default(),
    );
    assert_eq!(text_of(&row), "L    C    R");
}

#[test]
fn a_right_section_is_flush_with_the_end() {
    let row = render_line("#[align=right] 23:04 ", 20, Style::default());
    assert!(text_of(&row).ends_with(" 23:04 "));
}

#[test]
fn style_directives_colour_the_cells_that_follow() {
    let row = render_line("a#[fg=red,bold]b", 3, Style::default());
    assert_eq!(row[0].style, Style::default());
    assert_eq!(row[1].style.fg, Color::Indexed(1));
    assert!(row[1].style.bold);
}

#[test]
fn default_returns_to_the_pushed_style() {
    let row = render_line(
        "#[fg=green]#[push-default]#[fg=red]x#[default]y",
        2,
        Style::default(),
    );
    assert_eq!(row[0].style.fg, Color::Indexed(1));
    assert_eq!(row[1].style.fg, Color::Indexed(2));
}

#[test]
fn pop_default_restores_the_outer_default() {
    let row = render_line(
        "#[fg=blue]#[push-default]#[push-default]#[pop-default]#[default]z",
        1,
        Style::default(),
    );
    assert_eq!(row[0].style.fg, Color::Indexed(4));
}

#[test]
fn list_scroll_markers_are_dropped() {
    // tmux declares the marker glyph even when the list is not scrolled.
    let row = render_line(
        "#[list=left-marker]<#[list=right-marker]>ab",
        4,
        Style::default(),
    );
    assert_eq!(text_of(&row), "ab  ");
}

#[test]
fn layout_directives_draw_nothing() {
    let row = render_line(
        "#[range=window|2 list=focus]#[norange]#[nolist]ab",
        4,
        Style::default(),
    );
    assert_eq!(text_of(&row), "ab  ");
}

#[test]
fn a_doubled_hash_is_a_literal_one() {
    assert_eq!(text_of(&render_line("a##b", 4, Style::default())), "a#b ");
    assert_eq!(text_of(&render_line("##[x]", 5, Style::default())), "#[x] ");
}

#[test]
fn content_wider_than_the_row_is_truncated_not_wrapped() {
    let row = render_line("abcdefghij", 4, Style::default());
    assert_eq!(row.len(), 4);
    assert_eq!(text_of(&row), "abcd");
}

#[test]
fn padding_carries_the_base_style_so_the_bar_is_continuous() {
    let base = parse_style("bg=#181825", Style::default());
    let row = render_line("x", 4, base);
    assert_eq!(row[3].style.bg, Color::Rgb(0x18, 0x18, 0x25));
}

#[test]
fn a_real_tmux_line_renders_its_window_names_and_clock() {
    let markup = "#[align=left range=left default]#[push-default]#[pop-default]\
#[norange default]#[list=on align=left]#[list=left-marker]<#[list=right-marker]>#[list=on]\
#[range=window|1 default]#[push-default] one #[pop-default]#[norange default]\
#[range=window|2 list=focus bg=#89b4fa,fg=#1e1e2e,bold]#[push-default] two #[pop-default]\
#[norange list=on default]#[nolist align=right range=right default]#[push-default] 23:04 \
#[pop-default]#[norange default]";
    let base = parse_style("bg=#181825,fg=#cdd6f4", Style::default());
    let row = render_line(markup, 40, base);
    let text = text_of(&row);
    assert!(text.starts_with(" one  two "), "{text:?}");
    assert!(text.ends_with(" 23:04 "), "{text:?}");
    // The focused window keeps the theme's highlight.
    let two = text.find("two").unwrap();
    assert_eq!(row[two].style.bg, Color::Rgb(0x89, 0xb4, 0xfa));
    assert!(row[two].style.bold);
    // ... and the window before it does not.
    let one = text.find("one").unwrap();
    assert_eq!(row[one].style.bg, base.bg);
}

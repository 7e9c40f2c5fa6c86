use ttycast::cli::parse_size;

#[test]
fn parse_size_accepts_both_cases() {
    assert_eq!(parse_size("1920x1080").unwrap(), (1920, 1080));
    assert_eq!(parse_size("640X480").unwrap(), (640, 480));
    assert!(parse_size("big").is_err());
    assert!(parse_size("100xtall").is_err());
}

#[test]
fn size_errors_name_the_text() {
    assert_eq!(parse_size("big").unwrap_err(), "expected WIDTHxHEIGHT, got \"big\"");
    assert_eq!(parse_size("ax1").unwrap_err(), "bad width in \"ax1\"");
    assert_eq!(parse_size("1x").unwrap_err(), "bad height in \"1x\"");
}

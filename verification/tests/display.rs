use ttycast::display::{
    brightness_level, candidates, names_of, pick, Method, Power, ScreenPower, GRACE_MS, METHODS,
};

fn power() -> ScreenPower {
    ScreenPower::new(Some(Method::Xset))
}

#[test]
fn output_power_management_is_preferred_over_dimming() {
    // Measured: DPMS off saves 3.6 W more than backlight 0 on the same laptop.
    assert_eq!(METHODS[0], Method::Sway);
    assert_eq!(METHODS[3], Method::Backlight);
}

#[test]
fn every_method_has_a_name_and_a_description() {
    for method in METHODS {
        assert!(!method.name().is_empty());
        assert!(!method.describes().is_empty());
        assert_eq!(Method::from_name(method.name()), Some(method));
    }
}

#[test]
fn an_unknown_method_name_is_rejected() {
    assert_eq!(Method::from_name("floodlight"), None);
    assert_eq!(pick("floodlight", &METHODS), None);
}

#[test]
fn nothing_happens_without_a_method() {
    let mut screen = ScreenPower::new(None);
    assert!(!screen.active());
    assert_eq!(screen.update(3, 0), Power::Keep);
    assert_eq!(screen.restore(), Power::Keep);
    assert!(!screen.is_off());
    assert_eq!(screen.status(), "");
}

#[test]
fn the_grace_period_keeps_a_reconnect_from_flapping() {
    let mut screen = power();
    screen.is_off = true; // pretend the method succeeded
    assert_eq!(screen.update(0, 1000), Power::Keep);
    assert!(screen.is_off(), "a gap shorter than the grace must not restore");
    screen.update(1, 4000);
    assert!(screen.idle_since.is_none(), "a returning client resets the timer");
}

#[test]
fn the_screen_comes_back_after_the_grace_period() {
    let mut screen = power();
    screen.is_off = true;
    screen.update(0, 1000);
    assert!(screen.is_off());
    assert_eq!(screen.update(0, 6500), Power::On(Method::Xset));
    assert!(!screen.is_off(), "past the grace the screen must come back");
}

#[test]
fn status_follows_the_state() {
    let mut screen = power();
    assert_eq!(screen.status(), "screen on");
    screen.is_off = true;
    assert_eq!(screen.status(), "screen off");
}

#[test]
fn restore_is_safe_when_never_darkened() {
    let mut screen = power();
    assert_eq!(screen.restore(), Power::Keep);
    assert!(!screen.is_off());
}

#[test]
fn a_viewer_darkens_the_screen_at_once() {
    let mut screen = power();
    assert_eq!(screen.update(1, 0), Power::Off(Method::Xset));
    screen.darkened(true);
    assert!(screen.is_off());
    assert_eq!(screen.update(2, 10), Power::Keep);
    assert_eq!(screen.restore(), Power::On(Method::Xset));
    assert!(!screen.is_off());
    assert_eq!(GRACE_MS, 5000);
}

#[test]
fn a_failed_off_is_tried_again_on_the_next_tick() {
    let mut screen = power();
    assert_eq!(screen.update(1, 0), Power::Off(Method::Xset));
    screen.darkened(false);
    assert_eq!(screen.update(1, 100), Power::Off(Method::Xset));
}

#[test]
fn the_commands_match_each_method() {
    let off = Method::Sway.off();
    assert_eq!(off.program, "swaymsg");
    assert_eq!(off.args, ["output", "*", "dpms", "off"]);
    let on = Method::Backlight.on();
    assert_eq!(on.program, "brightnessctl");
    assert_eq!(on.args, ["-q", "-r"]);
    assert_eq!(Method::Backlight.off().args, ["-q", "-s", "set", "0"]);
}

#[test]
fn picking_follows_the_preference_order() {
    assert_eq!(candidates("auto"), METHODS.to_vec());
    assert_eq!(candidates(""), METHODS.to_vec());
    assert_eq!(candidates("xset"), vec![Method::Xset]);
    assert!(candidates("floodlight").is_empty());
    assert_eq!(pick("auto", &[Method::Backlight, Method::Wlopm]), Some(Method::Wlopm));
    assert_eq!(pick("xset", &[Method::Backlight]), None);
    assert_eq!(pick("backlight", &[Method::Backlight]), Some(Method::Backlight));
    assert_eq!(names_of(&[Method::Sway, Method::Xset]), ["sway", "xset"]);
}

#[test]
fn a_brightness_level_is_digits_only() {
    assert_eq!(brightness_level("  1200\n").as_deref(), Some("1200"));
    assert_eq!(brightness_level("12a"), None);
    assert_eq!(brightness_level("\n"), None);
}

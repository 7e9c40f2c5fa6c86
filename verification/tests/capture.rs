use ttycast::capture::{
    fallback_from, last_window_target, parse_info, plan_target, session_target, split_bundle,
    Alternative, PaneInfo, PaneSource, TargetPlan,
};

#[test]
fn parse_info_splits_the_tmux_format() {
    let info = parse_info("%3\t80\t24\t5\t7\tbash\n").unwrap();
    assert_eq!(info.pane_id, "%3");
    assert_eq!((info.width, info.height), (80, 24));
    assert_eq!(info.cursor, (5, 7));
    assert_eq!(info.title, "bash");
}

#[test]
fn parse_info_tolerates_an_empty_title() {
    assert_eq!(parse_info("%0\t10\t2\t0\t0\t").unwrap().title, "");
}

#[test]
fn parse_info_rejects_a_short_answer() {
    assert!(parse_info("%0\t10").is_err());
}

#[test]
fn last_window_target_is_derived_from_a_session_target() {
    assert_eq!(last_window_target("=work:").as_deref(), Some("=work:!"));
    assert_eq!(last_window_target("%3"), None);
}

#[test]
fn resolve_target_passes_unknown_specs_through() {
    assert_eq!(
        plan_target("mysession:1.0", false),
        TargetPlan::Given("mysession:1.0".to_string())
    );
}

#[test]
fn parse_info_names_the_bad_field() {
    assert_eq!(parse_info("%0\t10\tx\t0\t0").unwrap_err(), "not a number: \"x\"");
    assert_eq!(parse_info("%0\t10").unwrap_err(), "unexpected tmux answer: \"%0\\t10\"");
    let info = parse_info("%1\t1\t2\t3\t4").unwrap();
    assert_eq!(info.title, "");
}

#[test]
fn the_special_target_specs_are_planned() {
    assert_eq!(plan_target("self", true), TargetPlan::OwnPane);
    assert_eq!(plan_target("new", true), TargetPlan::Session("ttycast".into()));
    assert_eq!(plan_target("auto", true), TargetPlan::CurrentSession);
    assert_eq!(plan_target("auto", false), TargetPlan::Session("ttycast".into()));
    assert_eq!(session_target("work"), "=work:");
}

#[test]
fn the_fallback_prefers_the_last_window_then_the_active_pane() {
    let listing = "%1\t0\t1\n%2\t1\t0\n%3\t1\t1\n%4\tx\t1\nbroken\n";
    assert_eq!(fallback_from(listing, "%9").as_deref(), Some("%3"));
    assert_eq!(fallback_from(listing, "%3").as_deref(), Some("%2"));
    assert_eq!(fallback_from("", "%1"), None);
    assert_eq!(fallback_from("%1\t1\t1\n", "%1"), None);
}

#[test]
fn a_bundle_splits_at_the_first_line() {
    let (info, text) = split_bundle("%3\t80\t24\t0\t0\tvim\nline one\nline two").unwrap();
    assert_eq!(info.pane_id, "%3");
    assert_eq!(text, "line one\nline two");
    assert!(split_bundle("garbage").is_err());
}

#[test]
fn a_source_replaces_only_its_own_pane() {
    let source = PaneSource::new("=work:".into(), Some("%3".into()));
    let mine = PaneInfo { pane_id: "%3".into(), width: 1, height: 1, cursor: (0, 0), title: String::new() };
    let other = PaneInfo { pane_id: "%4".into(), width: 1, height: 1, cursor: (0, 0), title: String::new() };
    assert!(source.shows_itself(&mine));
    assert!(!source.shows_itself(&other));
    assert_eq!(source.alternative(), Alternative::Target("=work:!".into()));
    let pane = PaneSource::new("%7".into(), None);
    assert_eq!(pane.alternative(), Alternative::Fallback(String::new()));
}

#[test]
fn an_unchanged_pane_is_rendered_once() {
    let info = PaneInfo { pane_id: "%1".into(), width: 80, height: 24, cursor: (0, 0), title: String::new() };
    let moved = PaneInfo { pane_id: "%1".into(), width: 80, height: 24, cursor: (1, 0), title: String::new() };
    let mut last = ttycast::capture::LastCapture::new();
    assert!(last.is_new(&info, "$ ls"));
    assert!(!last.is_new(&info, "$ ls"));
    assert!(last.is_new(&moved, "$ ls"));
    assert!(last.is_new(&moved, "$ ls -l"));
    last.forget();
    assert!(last.is_new(&moved, "$ ls -l"));
}

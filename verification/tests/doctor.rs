use ttycast::display::Method;
use ttycast::doctor::{run, Check, Probe};

fn bare_machine() -> Probe {
    Probe {
        tmux: None,
        inside_tmux: false,
        font: None,
        ffmpeg: None,
        encoder: None,
        ip: "127.0.0.1".into(),
        port: 0,
        port_free: true,
        screen: None,
        wifi_usable: false,
        wifi_lines: vec!["no wireless phy found (is 'iw' installed and a wifi card present?)".into()],
        renderers: None,
    }
}

#[test]
fn formatting_lines_up_and_marks_severity() {
    let checks = vec![
        Check::new("short", true, "fine".into(), false),
        Check::new("much longer name", false, "broken".into(), false),
        Check::new("optional", false, "meh".into(), true),
    ];
    let text = ttycast::doctor::format(&checks);
    assert!(text.contains("[ok  ] short"));
    assert!(text.contains("[FAIL] much longer name"));
    assert!(text.contains("[warn] optional"));
    // Names are padded to a common width so the details line up.
    let details: Vec<usize> = text
        .lines()
        .map(|line| line.find("  ").map(|_| line.rfind("  ").unwrap()).unwrap())
        .collect();
    assert_eq!(details.len(), 3);
}

#[test]
fn the_local_checks_always_produce_a_report() {
    let checks = run(&bare_machine());
    assert!(checks.iter().any(|c| c.name == "tmux"));
    assert!(checks.iter().any(|c| c.name == "monospace font"));
    assert!(checks.iter().any(|c| c.name.starts_with("port")));
    assert!(!ttycast::doctor::format(&checks).is_empty());
}

#[test]
fn details_start_in_one_column() {
    let checks = vec![
        Check::new("a", true, "x".into(), false),
        Check::new("abcdef", true, "y".into(), false),
    ];
    assert_eq!(ttycast::doctor::format(&checks), "[ok  ] a       x\n[ok  ] abcdef  y");
    assert_eq!(ttycast::doctor::format(&[]), "");
}

#[test]
fn a_bare_machine_gets_advice_for_everything() {
    let checks = run(&bare_machine());
    assert_eq!(checks.len(), 9);
    assert_eq!(checks[0].detail, "not found - ttycast captures tmux panes");
    assert!(!checks[0].ok && !checks[0].optional);
    assert_eq!(checks[1].detail, "no - ttycast will open its own session");
    assert_eq!(
        checks[4].detail,
        "none of libx264, libopenh264, h264_vaapi, h264_qsv, h264_nvenc - dlna and miracast need one"
    );
    assert!(!checks[5].ok, "loopback is not a LAN address");
    assert_eq!(checks[6].name, "port 0");
    assert_eq!(checks[6].detail, "free");
    assert_eq!(checks[7].detail, "no usable method found on this session");
}

#[test]
fn a_good_machine_passes_and_lists_renderers() {
    let mut probe = bare_machine();
    probe.tmux = Some("/usr/bin/tmux".into());
    probe.ip = "192.168.1.5".into();
    probe.port = 8009;
    probe.screen = Some(Method::Sway);
    probe.wifi_usable = true;
    probe.wifi_lines = vec!["phy0: P2P supported (P2P-GO)".into(), "phy1: no P2P mode (AP)".into()];
    probe.renderers = Some(vec![("TV".into(), "10.0.0.2".into()), ("Box".into(), "10.0.0.3".into())]);
    let checks = run(&probe);
    assert_eq!(checks.len(), 10);
    assert!(checks[0].ok);
    assert!(checks[5].ok);
    assert_eq!(checks[6].name, "port 8009");
    assert_eq!(checks[7].detail, Method::Sway.describes());
    assert_eq!(checks[8].detail, "phy0: P2P supported (P2P-GO); phy1: no P2P mode (AP)");
    assert_eq!(checks[9].detail, "TV (10.0.0.2), Box (10.0.0.3)");
    probe.renderers = Some(vec![]);
    let checks = run(&probe);
    assert!(!checks[9].ok);
}

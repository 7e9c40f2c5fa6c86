use ttycast::backend::browser::BrowserBackend;
use ttycast::backend::dlna::DlnaBackend;
use ttycast::backend::miracast::{no_sink_message, preflight_problems, status_text};
use ttycast::backend::preview::{encode_png, PreviewBackend};
use ttycast::backend::{stream_problems, unknown_backend, SUMMARIES};
use ttycast::render::Frame;
use ttycast::upnp::Renderer;

fn renderer(name: &str, location: &str) -> Renderer {
    Renderer {
        name: name.into(),
        location: location.into(),
        control_url: String::new(),
        address: "10.0.0.1".into(),
    }
}

#[test]
fn png_encoding_produces_a_real_file_header() {
    let frame = Frame {
        width: 4,
        height: 2,
        data: vec![128; 4 * 2 * 3],
    };
    let png = encode_png(&frame).unwrap();
    assert_eq!(&png[..4], &[0x89, b'P', b'N', b'G']);
}

#[test]
fn unknown_backend_names_are_rejected() {
    let error = unknown_backend("beamer");
    assert!(error.contains("beamer"), "{error}");
    assert!(error.contains("browser"), "{error}");
    for (name, summary) in SUMMARIES {
        assert!(!summary.is_empty(), "{name} has no summary");
        assert!(error.contains(name));
    }
}

#[test]
fn a_frame_of_the_wrong_size_is_refused_by_png() {
    let frame = Frame { width: 4, height: 2, data: vec![0; 5] };
    assert!(encode_png(&frame).is_err());
}

#[test]
fn the_dlna_backend_picks_by_host_and_name() {
    let found = vec![
        renderer("Living Room TV", "http://192.168.1.20:1400/d.xml"),
        renderer("Bedroom TV", "http://192.168.1.21:1400/d.xml"),
    ];
    let r = DlnaBackend::choose_renderer(&found, None, None).unwrap();
    assert_eq!(r.name, "Living Room TV");
    let r = DlnaBackend::choose_renderer(&found, None, Some("bedroom")).unwrap();
    assert_eq!(r.name, "Bedroom TV");
    let r = DlnaBackend::choose_renderer(&found, Some("192.168.1.21"), None).unwrap();
    assert_eq!(r.name, "Bedroom TV");
    let e = DlnaBackend::choose_renderer(&found, Some("192.168.1.21"), Some("living")).unwrap_err();
    assert_eq!(e, "no renderer matched. Found: Living Room TV (192.168.1.20), Bedroom TV (192.168.1.21)");
    let e = DlnaBackend::choose_renderer(&Vec::new(), None, None).unwrap_err();
    assert!(e.starts_with("no DLNA renderer answered"));
}

#[test]
fn backend_status_lines() {
    let mut dlna = DlnaBackend::default();
    assert_eq!(dlna.status_text(0), "not connected");
    dlna.renderer = Some(renderer("TV", "http://h/"));
    assert_eq!(dlna.status_text(2), "TV <- 2 conn");
    assert_eq!(DlnaBackend::stream_url("http://10.0.0.5:8009"), "http://10.0.0.5:8009/live.ts");
    assert_eq!(BrowserBackend::status_text("10.0.0.5", 8009), "http://10.0.0.5:8009/");
    assert_eq!(
        BrowserBackend::announce("http://h:1"),
        ["open on the TV:  http://h:1/", "raw stream:      http://h:1/stream.mjpg"]
    );
    let mut preview = PreviewBackend::default();
    preview.start("shot.png");
    preview.wrote();
    assert_eq!(preview.status_text(), "shot.png (1 frames)");
    assert_eq!(preview.temporary_path(), "shot.png.tmp");
    assert_eq!(status_text(true, Some("192.168.49.1"), 5000), "rtp -> 192.168.49.1:5000");
    assert_eq!(status_text(false, Some("192.168.49.1"), 5000), "idle");
}

#[test]
fn miracast_preflight_skips_the_radio_check_for_a_known_sink() {
    let problems = preflight_problems(Vec::new(), true, false, &vec!["phy0: no P2P mode (AP)".into()], false);
    assert!(!problems.iter().any(|p| p.contains("Wi-Fi Direct")), "{problems:?}");
}

#[test]
fn miracast_preflight_explains_the_radio() {
    let problems = preflight_problems(
        stream_problems(false, false),
        false,
        false,
        &vec!["phy0: no P2P mode (AP)".into()],
        false,
    );
    assert_eq!(problems.len(), 4);
    assert!(problems[0].starts_with("ffmpeg not found"));
    assert_eq!(problems[1], "no Wi-Fi Direct capable adapter:");
    assert_eq!(problems[2], "  phy0: no P2P mode (AP)");
    assert!(problems[3].starts_with("no Wi-Fi Direct helper found"));
    assert!(stream_problems(true, true).is_empty());
    assert!(stream_problems(true, false)[0].contains("libopenh264"));
}

#[test]
fn miracast_start_explains_what_is_missing_without_a_sink() {
    assert!(no_sink_message().contains("--sink-host"));
}

use ttycast::server::{
    base_url, health, live_ts_head, mjpeg_head, page, part_head, request_line, response_head,
    route, Route, DLNA_FEATURES_LIVE,
};

#[test]
fn the_dlna_headers_are_present_on_the_transport_stream() {
    // The header text is what a renderer inspects before it will play.
    assert!(DLNA_FEATURES_LIVE.contains("DLNA.ORG_OP=00"));
    assert!(DLNA_FEATURES_LIVE.contains("DLNA.ORG_FLAGS=8D50"));
    assert!(live_ts_head().contains(&format!("contentFeatures.dlna.org: {DLNA_FEATURES_LIVE}\r\n")));
}

#[test]
fn paths_route_without_query_or_trailing_slash() {
    assert_eq!(route("/"), Route::Index);
    assert_eq!(route(""), Route::Index);
    assert_eq!(route("/?x=1"), Route::Index);
    assert_eq!(route("/health/"), Route::Health);
    assert_eq!(route("/frame.jpg?t=5"), Route::Frame);
    assert_eq!(route("/stream.mjpg"), Route::Mjpeg);
    assert_eq!(route("/live.ts//"), Route::LiveTs);
    assert_eq!(route("/nope"), Route::NotFound);
}

#[test]
fn request_lines_give_method_and_path() {
    assert_eq!(
        request_line("GET /live.ts HTTP/1.1\r\n"),
        Some(("GET".to_string(), "/live.ts".to_string()))
    );
    assert_eq!(request_line("HEAD\r\n"), Some(("HEAD".to_string(), "/".to_string())));
    assert_eq!(request_line("   \r\n"), None);
}

#[test]
fn response_heads_carry_status_and_length() {
    assert_eq!(
        response_head(404, "text/plain", 15, &[]),
        "HTTP/1.1 404 Not Found\r\nContent-Type: text/plain\r\nContent-Length: 15\r\nCache-Control: no-store\r\nConnection: close\r\n\r\n"
    );
    assert!(response_head(503, "text/plain", 0, &[("X-A", "b")]).starts_with("HTTP/1.1 503 Service Unavailable\r\n"));
    assert!(response_head(503, "text/plain", 0, &[("X-A", "b")]).ends_with("X-A: b\r\n\r\n"));
    assert!(response_head(418, "text/plain", 0, &[]).starts_with("HTTP/1.1 418 Error\r\n"));
}

#[test]
fn the_index_page_points_at_the_stream() {
    let html = page("10.0.0.5");
    assert!(html.contains("<img src=\"/stream.mjpg\""));
    assert!(html.contains("10.0.0.5</footer>"));
    assert!(html.contains("{margin:0;"));
}

#[test]
fn health_reports_frames_and_viewers() {
    assert_eq!(
        health(7, 2, true, 1),
        "ttycast ok\nframes=7\nviewers=2\nts_running=true\nts_clients=1\n"
    );
}

#[test]
fn the_mjpeg_stream_is_multipart() {
    assert!(mjpeg_head().contains("multipart/x-mixed-replace; boundary=ttycastframe\r\n"));
    assert_eq!(part_head(42), "--ttycastframe\r\nContent-Type: image/jpeg\r\nContent-Length: 42\r\n\r\n");
    assert_eq!(base_url("10.0.0.5", 8009), "http://10.0.0.5:8009");
}

use ttycast::wfd::{
    choose_mode, format_parameters, get_parameter_request, options_request, options_response,
    canonical, parameter, parse, request, parse_client_rtp_ports, parse_parameters, parse_transport_port,
    set_parameter_body, trigger_body, video_formats_value, Message, CEA_1280X720P30,
    CEA_1280X720P60, CEA_1920X1080P30, CEA_640X480P60,
};

fn param(params: &Vec<(String, String)>, key: &str) -> String {
    parameter(params, key).expect("parameter present")
}

#[test]
fn a_request_round_trips() {
    let message = options_request("rtsp://192.168.49.1/wfd1.0", 1);
    let raw = message.encode();
    assert!(raw.starts_with("OPTIONS rtsp://192.168.49.1/wfd1.0 RTSP/1.0\r\n"));
    assert!(raw.contains("CSeq: 1\r\n"));
    let parsed = parse(&raw);
    assert_eq!(
        parsed.request,
        Some(("OPTIONS".into(), "rtsp://192.168.49.1/wfd1.0".into()))
    );
    assert_eq!(parsed.cseq(), Some(1));
}

#[test]
fn a_response_round_trips() {
    let raw = options_response(4).encode();
    assert!(raw.starts_with("RTSP/1.0 200 OK\r\n"));
    assert!(raw.contains("org.wfa.wfd1.0"));
    assert_eq!(parse(&raw).status, Some((200, "OK".into())));
}

#[test]
fn content_length_matches_the_body() {
    let raw = get_parameter_request("rtsp://x", 2).encode();
    let (head, body) = raw.split_once("\r\n\r\n").unwrap();
    assert!(head.contains(&format!("Content-Length: {}", body.len())));
    assert!(body.contains("wfd_video_formats"));
}

#[test]
fn wfd_headers_keep_their_lowercase_names() {
    let message = Message {
        request: Some(("SET_PARAMETER".into(), "rtsp://x".into())),
        headers: vec![("wfd_trigger".into(), "SETUP".into())],
        ..Message::default()
    };
    assert!(message.encode().contains("wfd_trigger: SETUP"));
}

#[test]
fn parse_parameters_handles_valued_and_bare_keys() {
    let params =
        parse_parameters("wfd_video_formats: 00 00 02 04 0001DEFF\r\nwfd_audio_codecs\r\n");
    assert!(param(&params, "wfd_video_formats").starts_with("00 00 02 04"));
    assert_eq!(param(&params, "wfd_audio_codecs"), "");
}

#[test]
fn format_parameters_is_the_inverse() {
    let text = format_parameters(&[("wfd_trigger_method", "SETUP"), ("wfd_audio_codecs", "")]);
    let params = parse_parameters(&text);
    assert_eq!(param(&params, "wfd_trigger_method"), "SETUP");
    assert_eq!(param(&params, "wfd_audio_codecs"), "");
}

#[test]
fn choose_mode_prefers_the_largest_common_format() {
    let both = CEA_1280X720P30 | CEA_1920X1080P30;
    let formats = format!("00 00 02 04 {both:08X} 00000000 00000000 00 0000 0000 00 none none");
    assert_eq!(choose_mode(&formats), Some((1920, 1080, 30)));
}

#[test]
fn choose_mode_falls_back_to_a_smaller_format() {
    let formats = format!("00 00 02 04 {CEA_1280X720P30:08X} 00000000 00000000");
    assert_eq!(choose_mode(&formats), Some((1280, 720, 30)));
}

#[test]
fn choose_mode_returns_none_when_nothing_matches() {
    assert_eq!(choose_mode("00 00 02 04 00000000 00000000 00000000"), None);
    assert_eq!(choose_mode("garbage"), None);
    assert_eq!(choose_mode("00 00 02 04 ZZZZ"), None);
}

#[test]
fn video_formats_value_encodes_the_bitmap() {
    let value = video_formats_value(CEA_1280X720P30);
    assert_eq!(
        value.split_whitespace().nth(4).unwrap(),
        format!("{CEA_1280X720P30:08X}")
    );
}

#[test]
fn set_parameter_body_carries_the_rtp_port() {
    let params = parse_parameters(&set_parameter_body(19000, CEA_1280X720P30));
    assert!(param(&params, "wfd_client_rtp_ports").contains("19000"));
    assert_eq!(param(&params, "wfd_audio_codecs"), "none");
}

#[test]
fn trigger_body_names_the_method() {
    assert_eq!(
        param(&parse_parameters(&trigger_body("PLAY")), "wfd_trigger_method"),
        "PLAY"
    );
}

#[test]
fn client_rtp_ports_are_extracted() {
    assert_eq!(
        parse_client_rtp_ports("RTP/AVP/UDP;unicast 19000 0 mode=play"),
        Some(19000)
    );
    assert_eq!(
        parse_client_rtp_ports("RTP/AVP/UDP;unicast 0 0 mode=play"),
        None
    );
}

#[test]
fn transport_ports_are_extracted() {
    assert_eq!(
        parse_transport_port("RTP/AVP/UDP;unicast;client_port=19000-19001"),
        Some(19000)
    );
    assert_eq!(parse_transport_port("RTP/AVP/UDP;unicast"), None);
}

#[test]
fn a_repeated_parameter_answers_with_its_last_value() {
    let params = parse_parameters("a: 1\r\nb: 2\r\na: 3\r\n");
    assert_eq!(params.len(), 2);
    assert_eq!(param(&params, "a"), "3");
    assert_eq!(parameter(&params, "c"), None);
}

#[test]
fn choose_mode_takes_the_bitmap_as_hex() {
    // 0x40 is 720p60; read as decimal it would be 640x480's bit plus others.
    assert_eq!(choose_mode("00 00 02 04 00000040"), Some((1280, 720, 60)));
    assert_eq!(choose_mode("00 00 02 04 00000001"), Some((640, 480, 60)));
    let all = CEA_640X480P60 | CEA_1280X720P60;
    assert_eq!(choose_mode(&format!("00 00 02 04 {all:08x}")), Some((1280, 720, 60)));
}

#[test]
fn a_response_without_a_cseq_reports_none() {
    let parsed = parse("RTSP/1.0 404 Not Found\r\n\r\n");
    assert_eq!(parsed.status, Some((404, "Not Found".into())));
    assert_eq!(parsed.cseq(), None);
    assert_eq!(parsed.request, None);
}

#[test]
fn the_body_follows_the_blank_line() {
    let parsed = parse("GET_PARAMETER rtsp://x RTSP/1.0\r\nCSeq: 7\r\nContent-Length: 5\r\n\r\nhello");
    assert_eq!(parsed.cseq(), Some(7));
    assert_eq!(parsed.body, "hello");
    assert_eq!(parsed.header("content-length"), Some("5"));
}

#[test]
fn transport_port_ignores_whitespace_around_parts() {
    assert_eq!(parse_transport_port("RTP/AVP/UDP; client_port=5000"), Some(5000));
    assert_eq!(parse_transport_port("client_port=abc"), None);
}

#[test]
fn header_names_are_written_the_way_sinks_expect() {
    assert_eq!(canonical("cseq"), "CSeq");
    assert_eq!(canonical("CSEQ"), "CSeq");
    assert_eq!(canonical("content-TYPE"), "Content-Type");
    assert_eq!(canonical("wfd_video_formats"), "wfd_video_formats");
    assert_eq!(canonical("x--y"), "X--Y");
}

#[test]
fn a_repeated_parameter_is_kept_once_with_its_last_value() {
    let params = parse_parameters("wfd_a: 1\r\nwfd_b: 2\r\nwfd_a: 3\r\n");
    assert_eq!(
        params,
        vec![("wfd_a".to_string(), "3".to_string()), ("wfd_b".to_string(), "2".to_string())]
    );
    assert_eq!(parameter(&params, "wfd_a").as_deref(), Some("3"));
}

#[test]
fn a_canonical_name_is_its_own_canonical_name() {
    for name in ["content-LENGTH", "user-agent", "CSEQ", "wfd_client_rtp_ports", "-x-", "Session"] {
        let once = canonical(name);
        assert_eq!(canonical(&once), once, "{name}");
    }
    assert_eq!(canonical("content-LENGTH"), "Content-Length");
    assert_eq!(canonical("user-agent"), "User-Agent");
}

#[test]
fn parameters_come_back_in_key_order() {
    let params = parse_parameters("wfd_video_formats: x\r\nwfd_audio_codecs\r\nwfd_client_rtp_ports: y\r\n");
    let keys: Vec<&str> = params.iter().map(|(k, _)| k.as_str()).collect();
    assert_eq!(keys, vec!["wfd_audio_codecs", "wfd_client_rtp_ports", "wfd_video_formats"]);
}

#[test]
fn the_start_and_cseq_come_back_whatever_the_other_headers_are_called() {
    let message = request(
        "GET_PARAMETER",
        "rtsp://localhost/wfd1.0",
        7,
        "",
        &[("x:odd", "1"), ("straße-größe", "2")],
    );
    let parsed = parse(&message.encode());
    assert_eq!(
        parsed.request,
        Some(("GET_PARAMETER".into(), "rtsp://localhost/wfd1.0".into()))
    );
    assert_eq!(parsed.status, None);
    assert_eq!(parsed.cseq(), Some(7));
}

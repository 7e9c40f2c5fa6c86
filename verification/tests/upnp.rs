use ttycast::upnp::{
    authority_of, control_url, didl, escape, header, http_target, join_url, note_answer,
    play_arguments, read_answer, renderer_from, request_text, search_message, soap_action,
    soap_body, sort_renderers, tag, Renderer, AVTRANSPORT,
};

const DESCRIPTION: &str = r#"<?xml version="1.0"?>
<root xmlns="urn:schemas-upnp-org:device-1-0"><device>
<deviceType>urn:schemas-upnp-org:device:MediaRenderer:1</deviceType>
<friendlyName>Smart TV</friendlyName>
<dlna:X_DLNADOC xmlns:dlna="urn:schemas-dlna-org:device-1-0">DMR-1.50</dlna:X_DLNADOC>
<serviceList>
  <service>
    <serviceType>urn:schemas-upnp-org:service:ConnectionManager:1</serviceType>
    <controlURL>/upnp/control/cm</controlURL>
  </service>
  <service>
    <serviceType>urn:schemas-upnp-org:service:AVTransport:1</serviceType>
    <controlURL>/upnp/control/avt</controlURL>
  </service>
</serviceList></device></root>"#;

const RESPONSE: &str = "HTTP/1.1 200 OK\r\nCACHE-CONTROL: max-age=1800\r\n\
LOCATION: http://192.168.1.217:49152/description.xml\r\n\
ST: urn:schemas-upnp-org:device:MediaRenderer:1\r\n\r\n";

#[test]
fn header_lookup_is_case_insensitive() {
    assert_eq!(
        header(RESPONSE, "location"),
        "http://192.168.1.217:49152/description.xml"
    );
    assert!(header(RESPONSE, "LOCATION").ends_with("description.xml"));
    assert_eq!(header(RESPONSE, "missing"), "");
}

#[test]
fn tag_reads_namespaced_and_plain_elements() {
    assert_eq!(
        tag(DESCRIPTION, "friendlyName").as_deref(),
        Some("Smart TV")
    );
    assert_eq!(tag(DESCRIPTION, "X_DLNADOC").as_deref(), Some("DMR-1.50"));
    assert_eq!(tag(DESCRIPTION, "nope"), None);
}

#[test]
fn control_url_picks_avtransport_and_resolves_relative_paths() {
    let url = control_url(DESCRIPTION, "http://192.168.1.217:49152/description.xml");
    assert_eq!(
        url.as_deref(),
        Some("http://192.168.1.217:49152/upnp/control/avt")
    );
}

#[test]
fn control_url_returns_none_without_avtransport() {
    let stripped = DESCRIPTION.replace("AVTransport:1", "RenderingControl:1");
    assert_eq!(control_url(&stripped, "http://x/"), None);
}

#[test]
fn join_url_handles_all_three_forms() {
    assert_eq!(join_url("http://h:1/a/b.xml", "/c"), "http://h:1/c");
    assert_eq!(join_url("http://h:1/a/b.xml", "c"), "http://h:1/a/c");
    assert_eq!(join_url("http://h:1/a", "http://other/x"), "http://other/x");
}

#[test]
fn soap_body_is_well_formed() {
    let body = soap_body("Play", "<Speed>1</Speed>");
    assert!(body.starts_with("<?xml version=\"1.0\""));
    assert!(body.contains(&format!("<u:Play xmlns:u=\"{AVTRANSPORT}\">")));
    assert!(body.contains("<InstanceID>0</InstanceID><Speed>1</Speed>"));
    assert!(body.ends_with("</u:Play></s:Body></s:Envelope>"));
}

#[test]
fn didl_declares_a_live_resource() {
    let metadata = didl("ttycast", "http://10.0.0.5:8009/live.ts", "video/mpeg");
    assert!(metadata.contains("object.item.videoItem"));
    assert!(metadata.contains("DLNA.ORG_OP=00"));
    // A live stream must not claim a duration or a renderer draws a seek bar.
    assert!(!metadata.contains("duration"));
    assert!(!metadata.contains("size="));
}

#[test]
fn didl_escapes_the_url_and_title() {
    let metadata = didl("a & b", "http://h/x?a=1&b=2", "video/mpeg");
    assert!(metadata.contains("a &amp; b"));
    assert!(metadata.contains("a=1&amp;b=2"));
    assert!(!metadata.contains("&b=2"));
}

#[test]
fn renderer_host_comes_from_the_location() {
    let renderer = Renderer {
        name: "TV".into(),
        location: "http://192.168.1.217:49152/d.xml".into(),
        control_url: "http://x/c".into(),
        address: "10.0.0.1".into(),
    };
    assert_eq!(renderer.host(), "192.168.1.217");
}

#[test]
fn http_rejects_a_url_it_cannot_speak() {
    assert!(http_target("ftp://example.com/x").is_err());
    assert_eq!(
        http_target("ftp://example.com/x").unwrap_err(),
        "not an http url: ftp://example.com/x"
    );
}

#[test]
fn a_renderer_without_a_location_url_falls_back_to_its_address() {
    let renderer = Renderer {
        name: "TV".into(),
        location: "description.xml".into(),
        control_url: String::new(),
        address: "10.0.0.1".into(),
    };
    assert_eq!(renderer.host(), "10.0.0.1");
}

#[test]
fn escape_covers_all_five_entities() {
    assert_eq!(escape("<a href=\"x\">'&'</a>"), "&lt;a href=&quot;x&quot;&gt;&apos;&amp;&apos;&lt;/a&gt;");
    assert_eq!(escape("plain text"), "plain text");
    assert_eq!(escape(""), "");
}

#[test]
fn authority_defaults_to_port_80_and_keeps_the_path() {
    assert_eq!(
        authority_of("http://10.0.0.1/desc.xml"),
        Some(("10.0.0.1".to_string(), 80, "/desc.xml".to_string()))
    );
    assert_eq!(
        authority_of("http://10.0.0.1:49152/a/b"),
        Some(("10.0.0.1".to_string(), 49152, "/a/b".to_string()))
    );
    assert_eq!(
        authority_of("http://host:notaport"),
        Some(("host:notaport".to_string(), 80, "/".to_string()))
    );
    assert_eq!(authority_of("https://host/"), None);
}

#[test]
fn answers_are_judged_by_their_status() {
    assert_eq!(read_answer("http://x/", "HTTP/1.1 200 OK\r\nA: b\r\n\r\n<xml/>"), Ok("<xml/>".to_string()));
    assert_eq!(
        read_answer("http://x/", "HTTP/1.1 500 Internal Server Error\r\n\r\nboom"),
        Err("http://x/ answered 500".to_string())
    );
    assert_eq!(read_answer("http://x/", ""), Err("http://x/ answered ".to_string()));
}

#[test]
fn requests_carry_the_length_of_their_body() {
    let text = request_text("POST", "10.0.0.1", 8080, "/ctl", &[("SOAPAction", "\"a#Play\"")], Some("héllo"));
    assert!(text.starts_with("POST /ctl HTTP/1.1\r\nHost: 10.0.0.1:8080\r\n"));
    assert!(text.contains("SOAPAction: \"a#Play\"\r\n"));
    assert!(text.contains("Content-Length: 6\r\n"));
    assert!(text.ends_with("\r\n\r\nhéllo"));
    let get = request_text("GET", "h", 80, "/", &[], None);
    assert!(!get.contains("Content-Length"));
    assert!(get.ends_with("Connection: close\r\n\r\n"));
}

#[test]
fn the_first_answer_from_an_address_wins() {
    let mut found = Vec::new();
    note_answer(&mut found, "10.0.0.1", RESPONSE);
    note_answer(&mut found, "10.0.0.1", "HTTP/1.1 200 OK\r\nLOCATION: http://other/\r\n\r\n");
    note_answer(&mut found, "10.0.0.2", "HTTP/1.1 200 OK\r\nST: x\r\n\r\n");
    assert_eq!(found.len(), 1);
    assert_eq!(found[0].1, "http://192.168.1.217:49152/description.xml");
}

#[test]
fn a_description_becomes_a_renderer() {
    let r = renderer_from("10.0.0.9", "http://192.168.1.217:49152/description.xml", DESCRIPTION)
        .unwrap();
    assert_eq!(r.name, "Smart TV");
    assert_eq!(r.control_url, "http://192.168.1.217:49152/upnp/control/avt");
    assert_eq!(r.address, "10.0.0.9");
    let nameless = DESCRIPTION.replace("friendlyName", "modelName");
    assert_eq!(renderer_from("10.0.0.9", "http://h/d.xml", &nameless).unwrap().name, "10.0.0.9");
}

#[test]
fn the_play_arguments_escape_the_metadata_twice() {
    let args = play_arguments("http://h/x?a=1&b=2", "t", "video/mpeg");
    assert!(args.starts_with("<CurrentURI>http://h/x?a=1&amp;b=2</CurrentURI><CurrentURIMetaData>&lt;DIDL-Lite"));
    assert!(args.contains("a=1&amp;amp;b=2"));
    assert!(args.ends_with("</CurrentURIMetaData>"));
    assert_eq!(soap_action("Play"), format!("\"{AVTRANSPORT}#Play\""));
}

#[test]
fn the_search_asks_for_media_renderers() {
    let m = search_message();
    assert!(m.starts_with("M-SEARCH * HTTP/1.1\r\nHOST: 239.255.255.250:1900\r\n"));
    assert!(m.contains("ST: urn:schemas-upnp-org:device:MediaRenderer:1\r\n"));
    assert!(m.ends_with("\r\n\r\n"));
}

fn named(name: &str, address: &str) -> Renderer {
    Renderer {
        name: name.into(),
        location: format!("http://{address}/d.xml"),
        control_url: format!("http://{address}/c"),
        address: address.into(),
    }
}

#[test]
fn renderers_are_listed_by_name_ignoring_case() {
    let sorted = sort_renderers(vec![
        named("living room", "10.0.0.1"),
        named("Bedroom", "10.0.0.2"),
        named("attic", "10.0.0.3"),
        named("BEDROOM", "10.0.0.4"),
        named("Living Room", "10.0.0.5"),
    ]);
    let addresses: Vec<&str> = sorted.iter().map(|r| r.address.as_str()).collect();
    assert_eq!(
        addresses,
        vec!["10.0.0.3", "10.0.0.2", "10.0.0.4", "10.0.0.1", "10.0.0.5"]
    );
}

#[test]
fn no_renderers_sort_to_none() {
    assert!(sort_renderers(Vec::new()).is_empty());
}

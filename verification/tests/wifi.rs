use ttycast::wifi::{driver_from_uevent, p2p_report_from, parse_iw_list, Phy};

const NO_P2P: &str = "Wiphy phy0\n\tmax # scan SSIDs: 10\n\tSupported interface modes:\n\
\t\t * IBSS\n\t\t * managed\n\t\t * AP\n\tBand 1:\n";

const WITH_P2P: &str = "Wiphy phy0\n\tSupported interface modes:\n\t\t * managed\n\
\t\t * AP\n\t\t * P2P-client\n\t\t * P2P-GO\n\t\t * P2P-device\n\tBand 1:\n\
Wiphy phy1\n\tSupported interface modes:\n\t\t * monitor\n";

#[test]
fn parse_picks_up_modes() {
    let phys = parse_iw_list(NO_P2P);
    assert_eq!(phys.len(), 1);
    assert_eq!(phys[0].name, "phy0");
    assert_eq!(phys[0].modes, ["IBSS", "managed", "AP"]);
}

#[test]
fn p2p_detection() {
    assert!(!parse_iw_list(NO_P2P)[0].supports_p2p());
    let phys = parse_iw_list(WITH_P2P);
    assert!(phys[0].supports_p2p());
    assert!(!phys[1].supports_p2p());
}

#[test]
fn multiple_phys_are_all_returned() {
    let names: Vec<String> = parse_iw_list(WITH_P2P)
        .iter()
        .map(|p| p.name.clone())
        .collect();
    assert_eq!(names, ["phy0", "phy1"]);
}

#[test]
fn empty_input_yields_nothing() {
    assert!(parse_iw_list("").is_empty());
}

#[test]
fn the_report_explains_the_fix_when_p2p_is_missing() {
    let (usable, lines) = p2p_report_from(&parse_iw_list(NO_P2P));
    assert!(!usable);
    assert!(lines.iter().any(|l| l.contains("USB wifi adapter")));
}

#[test]
fn the_report_is_happy_with_a_p2p_adapter() {
    let (usable, lines) = p2p_report_from(&parse_iw_list(WITH_P2P));
    assert!(usable);
    assert!(lines.iter().any(|l| l.contains("P2P supported")));
}

#[test]
fn the_report_handles_no_adapter_at_all() {
    let (usable, lines) = p2p_report_from(&[]);
    assert!(!usable);
    assert!(lines[0].contains("no wireless phy found"));
}

#[test]
fn report_lines_name_the_driver_and_the_modes() {
    let phy = Phy {
        name: "phy3".into(),
        modes: vec!["managed".into(), "P2P-GO".into()],
        driver: "mt76x2u".into(),
    };
    let bare = Phy { name: "phy4".into(), modes: vec![], driver: String::new() };
    let (usable, lines) = p2p_report_from(&[phy, bare]);
    assert!(usable);
    assert_eq!(lines, ["phy3 driver=mt76x2u: P2P supported (managed, P2P-GO)", "phy4: no P2P mode (unknown)"]);
}

#[test]
fn modes_outside_the_mode_list_are_ignored() {
    let text = "Wiphy phy0\n\tSupported interface modes:\n\t\t * AP\n\tBand 1:\n\t\t * 2412 MHz\n";
    assert_eq!(parse_iw_list(text)[0].modes, ["AP"]);
}

#[test]
fn the_driver_comes_from_the_uevent_file() {
    assert_eq!(driver_from_uevent("DEVTYPE=usb\nDRIVER=mt76x2u\nPRODUCT=x\n"), "mt76x2u");
    assert_eq!(driver_from_uevent("DEVTYPE=usb\n"), "");
}

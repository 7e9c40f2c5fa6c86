use std::sync::Arc;

use ttycast::framebus::FrameBus;
use ttycast::render::Frame;

fn frame(shade: u8) -> Frame {
    Frame {
        width: 8,
        height: 8,
        data: vec![shade; 8 * 8 * 3],
    }
}

#[test]
fn starts_empty() {
    let mut bus = FrameBus::new(80);
    assert_eq!(bus.seq(), 0);
    assert!(bus.latest().is_none());
    assert!(bus.latest_jpeg().is_none());
}

#[test]
fn publish_advances_the_sequence() {
    let mut bus = FrameBus::new(80);
    bus.publish(frame(0));
    assert_eq!(bus.seq(), 1);
    assert!(bus.latest().is_some());
    bus.publish(frame(1));
    assert_eq!(bus.seq(), 2);
}

#[test]
fn jpeg_is_encoded_once_per_frame() {
    let mut bus = FrameBus::new(80);
    bus.publish(frame(5));
    let first = bus.latest_jpeg().unwrap();
    assert_eq!(&first[..2], &[0xff, 0xd8]);
    assert!(Arc::ptr_eq(&first, &bus.latest_jpeg().unwrap()));
    bus.publish(frame(200));
    assert!(!Arc::ptr_eq(&first, &bus.latest_jpeg().unwrap()));
}

#[test]
fn wait_returns_immediately_when_the_sequence_moved() {
    let mut bus = FrameBus::new(80);
    bus.publish(frame(0));
    assert_eq!(bus.wait(0), Some(1));
}

#[test]
fn closing_moves_the_sequence_but_keeps_the_frame() {
    let mut bus = FrameBus::new(80);
    assert_eq!(bus.wait(0), None);
    bus.publish(frame(3));
    bus.close();
    assert_eq!(bus.seq(), 2);
    assert_eq!(bus.wait(1), Some(2));
    assert_eq!(bus.latest().unwrap().data[0], 3);
}

#[test]
fn the_jpeg_ends_like_a_jpeg() {
    let mut bus = FrameBus::new(90);
    bus.publish(frame(128));
    let jpeg = bus.latest_jpeg().unwrap();
    assert_eq!(&jpeg[jpeg.len() - 2..], &[0xff, 0xd9]);
}

#[test]
fn a_frame_that_cannot_be_encoded_has_no_jpeg() {
    let mut bus = FrameBus::new(80);
    bus.publish(Frame { width: 4, height: 4, data: vec![0; 10] });
    assert_eq!(bus.seq(), 1);
    assert!(bus.latest().is_some());
    assert!(bus.latest_jpeg().is_none());
    bus.publish(Frame { width: 0, height: 4, data: Vec::new() });
    assert!(bus.latest_jpeg().is_none());
    bus.publish(frame(9));
    assert!(bus.latest_jpeg().is_some());
}

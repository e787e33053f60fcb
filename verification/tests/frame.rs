use t51core::net::frame::{Category, ControlFrame, Frame, PayloadInfo};
use t51core::net::result::Error;

#[test]
fn category_codes() {
    assert_eq!(u8::from(Category::Payload), 0);
    assert_eq!(u8::from(Category::Keepalive), 1);
    assert_eq!(u8::from(Category::ConnectionAccepted), 2);
    assert_eq!(u8::from(Category::ConnectionClosed), 3);
}

#[test]
fn control_frame_roundtrip() {
    let frame = ControlFrame::ConnectionClosed(8008);
    let category = frame.category();
    assert_eq!(category, 3);
    let mut bytes = Vec::new();
    frame.write(&mut bytes);
    assert_eq!(bytes, 8008u64.to_be_bytes().to_vec());
    assert_eq!(Frame::read(&bytes, category), Ok(Frame::Control(ControlFrame::ConnectionClosed(8008))));
}

#[test]
fn frame_read_outcomes() {
    assert_eq!(Frame::read(&[1, 2, 3], 0), Ok(Frame::Payload(PayloadInfo(3))));
    assert_eq!(Frame::read(&[0; 8], 1), Ok(Frame::Control(ControlFrame::Keepalive(0))));
    assert_eq!(Frame::read(&[], 4), Err(Error::IncorrectCategory));
    assert!(matches!(Frame::read(&[0; 7], 2), Err(Error::Io(_))));
}

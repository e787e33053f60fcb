use t51core::net::endpoint::{pull_action, ConnectionChange, Connections, PullAction};
use t51core::net::frame::{ControlFrame, Frame, PayloadInfo};
use t51core::net::result::Error;

#[test]
fn pull_actions_for_frames_and_errors() {
    assert_eq!(pull_action(&Ok(Frame::Control(ControlFrame::ConnectionClosed(3)))), PullAction::Close);
    assert_eq!(pull_action(&Ok(Frame::Control(ControlFrame::Keepalive(3)))), PullAction::Nothing);
    assert_eq!(pull_action(&Ok(Frame::Payload(PayloadInfo(12)))), PullAction::ReadPayload(12));
    assert_eq!(pull_action(&Err(Error::Wait)), PullAction::Nothing);
    assert_eq!(pull_action(&Err(Error::SequenceMismatch)), PullAction::Disconnect);
}

#[test]
fn connections_record_changes() {
    let mut connections = Connections::new();
    connections.connect(7, 0);
    connections.connect(8, 1);
    assert!(connections.is_connected(1));
    assert_eq!(connections.connected_count(), 2);
    connections.disconnect(0);
    assert!(!connections.is_connected(0));
    assert!(connections.is_connected(1));
    assert_eq!(
        connections.take_changes(),
        vec![ConnectionChange::Connected(7, 0), ConnectionChange::Connected(8, 1), ConnectionChange::Disconnected(0)]
    );
    assert_eq!(connections.take_changes(), vec![]);
    assert_eq!(connections.connected_count(), 1);
}

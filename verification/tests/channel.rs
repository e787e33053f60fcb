use byteorder::{BigEndian, LittleEndian, ReadBytesExt, WriteBytesExt};
use std::io::Cursor;
use t51core::net::channel::{
    max_plain_payload_size, ChannelState, ConnectionToken, FrameHeader, HeaderOutcome, CONNECTION_TOKEN_SIZE,
    HEADER_SIZE, MAC_SIZE, OVERHEAD_SIZE, READ_BUF_SIZE, WRITE_BUF_SIZE,
};
use t51core::net::result::Error;

const VERSION: [u8; 16] = [5; 16];
const PROTOCOL: u16 = 123;

fn header(category: u8, sequence: u64, size: u16) -> Vec<u8> {
    let mut stream = Vec::new();
    stream.write_u8(category).unwrap();
    stream.write_u64::<BigEndian>(sequence).unwrap();
    stream.write_u16::<BigEndian>(size).unwrap();
    stream
}

#[test]
fn test_additional_data() {
    let channel = ChannelState::new(VERSION, PROTOCOL);

    let ad = channel.additional_data(255);

    assert_eq!(&ad[..16], &[5u8; 16]);

    let mut reader = Cursor::new(&ad[16..]);

    assert_eq!(reader.read_u16::<LittleEndian>().unwrap(), 123);
    assert_eq!(reader.read_u8().unwrap(), 255);
}

#[test]
fn test_read_frame_zero_size() {
    let channel = ChannelState::new(VERSION, PROTOCOL);

    let stream = header(2, 0, 0);

    assert_eq!(channel.open_frame(&stream), Ok(HeaderOutcome::Empty(2)));
}

#[test]
fn test_read_frame_err_hdr_wait() {
    let channel = ChannelState::new(VERSION, PROTOCOL);

    let response = channel.open_frame(&[]);

    assert_eq!(response.err().unwrap(), Error::Wait);
}

#[test]
fn test_read_frame_err_payload_wait() {
    let channel = ChannelState::new(VERSION, PROTOCOL);

    let mut stream = header(2, 0, 100);
    // Write one byte less than expected size
    stream.extend_from_slice(&[0; 99]);

    let response = channel.open_frame(&stream);

    assert_eq!(response.err().unwrap(), Error::Wait);
}

#[test]
fn test_read_frame_err_payload_size() {
    let channel = ChannelState::new(VERSION, PROTOCOL);

    let mut stream = header(2, 0, u16::max_value());
    stream.resize(READ_BUF_SIZE, 0);

    let response = channel.open_frame(&stream);

    assert_eq!(response.err().unwrap(), Error::PayloadTooLarge);
}

#[test]
fn test_read_frame_err_sequence() {
    let channel = ChannelState::new(VERSION, PROTOCOL);

    let mut stream = header(2, 10, 5);
    stream.extend_from_slice(&[0; 5]);

    let response = channel.open_frame(&stream);

    assert_eq!(response.err().unwrap(), Error::SequenceMismatch);
}

#[test]
fn test_write_frame_err_wait() {
    let channel = ChannelState::new(VERSION, PROTOCOL);

    // The write buffer holds all but a header's worth of bytes.
    let free_capacity = WRITE_BUF_SIZE - (WRITE_BUF_SIZE - HEADER_SIZE);

    let result = channel.seal_header(8, free_capacity, 0);

    assert_eq!(result.err().unwrap(), Error::Wait);
}

#[test]
fn test_write_read_frame_roundtrip() {
    let mut writer = ChannelState::new(VERSION, PROTOCOL);
    let mut reader = ChannelState::new(VERSION, PROTOCOL);

    let payload: u64 = 123123123;
    let mut body = Vec::new();
    body.write_u64::<BigEndian>(payload).unwrap();

    let mut frame = writer.seal_header(body.len(), WRITE_BUF_SIZE, 0).unwrap();
    writer.frame_written();
    // The sealed payload: the payload and its authentication code.
    frame.extend_from_slice(&body);
    frame.extend_from_slice(&[0u8; MAC_SIZE]);

    assert_eq!(writer.server_sequence(), 1);

    let outcome = reader.open_frame(&frame).unwrap();
    assert_eq!(
        outcome,
        HeaderOutcome::Sealed(FrameHeader { category: 0, sequence: 0, payload_size: body.len() + MAC_SIZE })
    );
    reader.frame_read();

    let mut stream = &frame[HEADER_SIZE..HEADER_SIZE + body.len()];
    assert_eq!(stream.read_u64::<BigEndian>().unwrap(), payload);
    assert_eq!(reader.client_sequence(), 1);
}

#[test]
fn sealed_header_carries_category_sequence_and_size() {
    let mut channel = ChannelState::new(VERSION, PROTOCOL);
    channel.frame_written();
    channel.frame_written();
    let h = channel.seal_header(10, 10 + OVERHEAD_SIZE, 3).unwrap();
    assert_eq!(h, header(3, 2, 10 + MAC_SIZE as u16));
    assert_eq!(channel.seal_header(11, 10 + OVERHEAD_SIZE, 3).err(), Some(Error::Wait));
}

#[test]
fn channel_open_close_cycle() {
    let mut channel = ChannelState::new(VERSION, PROTOCOL);
    assert!(channel.open_now());
    assert_eq!(channel.reopen(), Err(Error::AlreadyConnected));
    channel.frame_read();
    channel.close();
    assert!(!channel.open_now());
    assert_eq!(channel.client_sequence(), 0);
    assert_eq!(channel.reopen(), Ok(()));
    assert!(channel.open_now());
    assert_eq!(channel.version(), VERSION);
    assert_eq!(channel.protocol(), PROTOCOL);
}

#[test]
fn plain_payload_size_leaves_room_for_overhead() {
    assert_eq!(max_plain_payload_size(WRITE_BUF_SIZE), WRITE_BUF_SIZE - 27);
    assert_eq!(OVERHEAD_SIZE, HEADER_SIZE + MAC_SIZE);
}

fn token_bytes(version: [u8; 16], protocol: u16, expires: u64, sequence: u64) -> Vec<u8> {
    let mut stream = Vec::new();
    stream.extend_from_slice(&version);
    stream.write_u16::<BigEndian>(protocol).unwrap();
    stream.write_u64::<BigEndian>(expires).unwrap();
    stream.write_u64::<BigEndian>(sequence).unwrap();
    // The sealed private data.
    stream.resize(CONNECTION_TOKEN_SIZE, 0);
    stream
}

fn private_data(user_id: u64) -> Vec<u8> {
    let mut plain = Vec::new();
    plain.write_u64::<BigEndian>(user_id).unwrap();
    plain.extend_from_slice(&[15u8; 32]);
    plain.extend_from_slice(&[101u8; 32]);
    plain
}

fn now() -> u64 {
    1_600_000_000
}

fn read_token(version: [u8; 16], protocol: u16, expires: u64) -> ConnectionToken {
    let stream = token_bytes(version, protocol, expires, 20);
    let header = ConnectionToken::read_header(&stream).unwrap();
    ConnectionToken::from_parts(header, &private_data(8008)).unwrap()
}

#[test]
fn test_read_connection_token() {
    let channel = ChannelState::new(VERSION, PROTOCOL);

    let token = read_token(VERSION, PROTOCOL, now() + 3600);

    let user_id = channel.accept_token(&token, now()).unwrap();

    assert_eq!(user_id, 8008);
    assert_eq!(token.data.server_key, [15u8; 32]);
    assert_eq!(token.data.client_key, [101u8; 32]);
    assert_eq!(token.sequence, 20);
}

#[test]
fn test_read_connection_token_err_wait() {
    let result = ConnectionToken::read_header(&[123u8; CONNECTION_TOKEN_SIZE - 1][..]);

    assert_eq!(result.err().unwrap(), Error::Wait);
}

#[test]
fn test_read_connection_token_err_expired() {
    let channel = ChannelState::new(VERSION, PROTOCOL);

    let token = read_token(VERSION, PROTOCOL, now() + 3600 - 7200);

    let result = channel.accept_token(&token, now());

    assert_eq!(result.err().unwrap(), Error::Expired);
}

#[test]
fn test_read_connection_token_err_version() {
    let channel = ChannelState::new(VERSION, PROTOCOL);

    let token = read_token([0u8; 16], PROTOCOL, now() + 3600);

    let result = channel.accept_token(&token, now());

    assert_eq!(result.err().unwrap(), Error::VersionMismatch);
}

#[test]
fn test_read_connection_token_err_protocol() {
    let channel = ChannelState::new(VERSION, PROTOCOL);

    let token = read_token(VERSION, PROTOCOL - 1, now() + 3600);

    let result = channel.accept_token(&token, now());

    assert_eq!(result.err().unwrap(), Error::ProtocolMismatch);
}

#[test]
fn token_parts_are_where_the_layout_puts_them() {
    let stream = token_bytes(VERSION, PROTOCOL, 77, 5);
    let sealed = ConnectionToken::sealed_part(&stream);
    assert_eq!(sealed.len(), 88);
    let header = ConnectionToken::read_header(&stream).unwrap();
    assert_eq!(header.version, VERSION);
    assert_eq!(header.protocol, PROTOCOL);
    assert_eq!(header.expires, 77);
    assert_eq!(header.sequence, 5);
    let ad = header.additional_data();
    assert_eq!(ad.len(), 26);
    assert_eq!(&ad[16..18], &PROTOCOL.to_le_bytes());
    assert_eq!(&ad[18..26], &77u64.to_le_bytes());
    assert!(matches!(ConnectionToken::from_parts(header, &[0u8; 71]), Err(Error::Io(_))));
}

#[test]
fn sealed_payload_shorter_than_its_code_is_refused() {
    let channel = ChannelState::new(VERSION, PROTOCOL);
    let mut stream = header(3, 0, (MAC_SIZE - 1) as u16);
    stream.extend(vec![0u8; MAC_SIZE - 1]);
    assert_eq!(channel.open_frame(&stream), Err(Error::Crypto));

    let mut stream = header(3, 0, MAC_SIZE as u16);
    stream.extend(vec![0u8; MAC_SIZE]);
    assert!(channel.open_frame(&stream).is_ok());
}

#[test]
fn closing_counts_a_disconnected_stream_as_shut_down() {
    assert_eq!(ChannelState::shutdown_outcome(None), Ok(()));
    assert_eq!(ChannelState::shutdown_outcome(Some(std::io::ErrorKind::NotConnected)), Ok(()));
    assert_eq!(
        ChannelState::shutdown_outcome(Some(std::io::ErrorKind::BrokenPipe)),
        Err(Error::Io(std::io::ErrorKind::BrokenPipe))
    );
}

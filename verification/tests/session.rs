use ledviz::config::MatrixConfiguration;
use ledviz::grid::Grid;
use ledviz::protocol::encode_message;
use ledviz::session::{
    ConfigurationReader, GridStore, ReaderStep, ServerAction, ServerSession, StreamEvent,
};

/// Feeds a byte stream to a server session as the connection loop does.
fn serve(session: &mut ServerSession, bytes: &[u8]) -> (Vec<Vec<u8>>, Vec<Vec<u8>>, bool) {
    let mut published = Vec::new();
    let mut replies = Vec::new();
    let mut i = 0;
    while i < bytes.len() {
        let byte = bytes[i];
        i += 1;
        match session.on_instruction(byte) {
            ServerAction::Ignore => {}
            ServerAction::ReadBuffer => {
                if i + 256 > bytes.len() {
                    return (published, replies, false);
                }
                let buffer: [u8; 256] = bytes[i..i + 256].try_into().unwrap();
                session.on_buffer(&buffer);
                i += 256;
            }
            ServerAction::Publish(b) => published.push(b),
            ServerAction::Close => return (published, replies, true),
            ServerAction::Reply(r) => replies.push(r),
        }
    }
    (published, replies, false)
}

fn read_configuration(bytes: &[u8]) -> Option<MatrixConfiguration> {
    let mut reader = ConfigurationReader::new();
    let mut i = 0;
    loop {
        let byte = bytes[i];
        i += 1;
        match reader.on_instruction(byte) {
            ReaderStep::ReadBuffer => {
                let buffer: [u8; 256] = bytes[i..i + 256].try_into().unwrap();
                reader.on_buffer(&buffer);
                i += 256;
            }
            ReaderStep::Done(c) => return c,
            ReaderStep::Ignore => {}
        }
    }
}

#[test]
fn server_publishes_what_the_client_sent() {
    let data: Vec<u8> = (0..700u32).map(|i| (i % 256) as u8).collect();
    let mut session = ServerSession::new((4, 2));
    let (published, replies, closed) = serve(&mut session, &encode_message(&data));
    assert_eq!(published, vec![data]);
    assert!(replies.is_empty());
    assert!(!closed);
    assert!(session.grid_bytes.is_empty());
}

#[test]
fn server_publishes_a_sent_grid() {
    let mut g = Grid::new(4, 2);
    g.gen_bars(&[1, 2, 3, 4, 5, 6, 7, 8, 9, 10]);
    let mut session = ServerSession::new((4, 2));
    let (published, _, _) = serve(&mut session, &g.to_message());
    assert_eq!(published.len(), 1);
    let back = Grid::from_bytes(&published[0]).unwrap();
    assert_eq!(back.canvas, g.canvas);
}

#[test]
fn server_skips_invalid_and_closes() {
    let mut session = ServerSession::new((4, 2));
    let mut bytes = vec![0x77, 0xFF];
    bytes.extend(encode_message(&[1, 2, 3]));
    bytes.push(0x02);
    bytes.extend(encode_message(&[9]));
    let (published, _, closed) = serve(&mut session, &bytes);
    assert_eq!(published, vec![vec![1, 2, 3]]);
    assert!(closed);
}

#[test]
fn server_answers_configuration_request() {
    let mut session = ServerSession::new((4, 2));
    let (_, replies, _) = serve(&mut session, &[0x03]);
    assert_eq!(replies, vec![encode_message(&[4, 2])]);
    assert_eq!(read_configuration(&replies[0]), Some(MatrixConfiguration { width: 4, height: 2 }));
}

#[test]
fn client_reader_ignores_other_instructions() {
    let mut bytes = vec![0x02, 0x03, 0x99];
    bytes.extend(encode_message(&[8, 1]));
    assert_eq!(read_configuration(&bytes), Some(MatrixConfiguration { width: 8, height: 1 }));
}

#[test]
fn client_reader_empty_reply_is_none() {
    assert_eq!(read_configuration(&[0x01]), None);
}

#[test]
fn store_keeps_latest_grid() {
    let mut store = GridStore::new();
    assert_eq!(store.handle(StreamEvent::RequestData), Some(vec![]));
    assert_eq!(store.handle(StreamEvent::SendGrid(vec![1, 2])), None);
    assert_eq!(store.handle(StreamEvent::SendGrid(vec![3])), None);
    assert_eq!(store.handle(StreamEvent::RequestData), Some(vec![3]));
    assert_eq!(store.handle(StreamEvent::RequestData), Some(vec![3]));
}

#[test]
fn server_publishes_payloads_between_completions_whatever_else_comes() {
    let mut session = ServerSession::new((4, 2));
    let mut first = [0u8; 256];
    first[0] = 2;
    first[1] = 10;
    first[2] = 11;
    let mut second = [0xEEu8; 256];
    second[0] = 1;
    second[1] = 12;
    let mut bytes = vec![0x00];
    bytes.extend_from_slice(&first);
    bytes.extend_from_slice(&[0x10, 0xFF, 0x03]);
    bytes.push(0x00);
    bytes.extend_from_slice(&second);
    bytes.push(0x01);
    bytes.push(0x01);
    bytes.push(0x00);
    bytes.extend_from_slice(&[0u8; 10]);
    let (published, replies, closed) = serve(&mut session, &bytes);
    assert_eq!(published, vec![vec![10, 11, 12], vec![]]);
    assert_eq!(replies, vec![encode_message(&[4, 2])]);
    assert!(!closed);
}

use ckb_script_ipc::error::IpcError;
use ckb_script_ipc::packet::{RequestPacket, ResponsePacket};

fn payloads() -> Vec<Vec<u8>> {
    vec![
        vec![],
        vec![0x00],
        vec![0x80],
        vec![0xff, 0x80, 0x00, 0x7f, 0x01],
        (0..=255u8).collect(),
        vec![0x80; 300],
    ]
}

#[test]
fn request_frame_layout() {
    let p = RequestPacket::new(vec![1, 2, 3]);
    assert_eq!(p.serialize(), vec![3, 1, 2, 3]);
    let long = RequestPacket::new(vec![7; 200]);
    let bytes = long.serialize();
    assert_eq!(&bytes[..2], &[0xc8, 0x01]);
    assert_eq!(bytes.len(), 202);
}

#[test]
fn response_frame_layout() {
    let p = ResponsePacket::new(0x0102, vec![9]);
    assert_eq!(p.serialize(), vec![0x02, 0x01, 0, 0, 0, 0, 0, 0, 1, 9]);
}

#[test]
fn request_round_trips() {
    for payload in payloads() {
        let bytes = RequestPacket::new(payload.clone()).serialize();
        let mut src: &[u8] = &bytes;
        let back = RequestPacket::read_from(&mut src).unwrap();
        assert_eq!(back.payload(), &payload[..]);
        assert!(src.is_empty());
    }
}

#[test]
fn response_round_trips() {
    for (code, payload) in [0u64, 1, 2, u64::MAX].into_iter().zip(payloads()) {
        let bytes = ResponsePacket::new(code, payload.clone()).serialize();
        let mut src: &[u8] = &bytes;
        let back = ResponsePacket::read_from(&mut src).unwrap();
        assert_eq!(back.error_code(), code);
        assert_eq!(back.payload(), &payload[..]);
        assert!(src.is_empty());
    }
}

#[test]
fn request_leaves_following_bytes() {
    let mut bytes = RequestPacket::new(vec![5, 6]).serialize();
    bytes.extend_from_slice(&[1, 0xaa]);
    let mut src: &[u8] = &bytes;
    let first = RequestPacket::read_from(&mut src).unwrap();
    assert_eq!(first.payload(), &[5, 6]);
    let second = RequestPacket::read_from(&mut src).unwrap();
    assert_eq!(second.payload(), &[0xaa]);
    assert_eq!(RequestPacket::read_from(&mut src).err(), Some(IpcError::IncompleteVlqSeq));
}

#[test]
fn truncated_request_fails() {
    let bytes = RequestPacket::new(vec![0x42; 200]).serialize();
    for k in 0..bytes.len() {
        let mut src: &[u8] = &bytes[..k];
        let expected = if k < 2 { IpcError::IncompleteVlqSeq } else { IpcError::UnexpectedEof };
        assert_eq!(RequestPacket::read_from(&mut src).err(), Some(expected));
    }
}

#[test]
fn truncated_response_fails() {
    let bytes = ResponsePacket::new(3, vec![0x42; 5]).serialize();
    for k in 0..bytes.len() {
        let mut src: &[u8] = &bytes[..k];
        let expected = if k == 8 { IpcError::IncompleteVlqSeq } else { IpcError::UnexpectedEof };
        assert_eq!(ResponsePacket::read_from(&mut src).err(), Some(expected));
    }
}

#[test]
fn declared_length_beyond_stream_fails() {
    let bytes = [10u8, 1, 2, 3];
    let mut src: &[u8] = &bytes;
    assert_eq!(RequestPacket::read_from(&mut src).err(), Some(IpcError::UnexpectedEof));
}

#[test]
fn read_or_end_tells_boundary_from_truncation() {
    let mut empty: &[u8] = &[];
    assert!(matches!(RequestPacket::read_or_end(&mut empty), Ok(None)));
    let mut cut: &[u8] = &[2, 1];
    assert_eq!(RequestPacket::read_or_end(&mut cut).err(), Some(IpcError::UnexpectedEof));
}

use ckb_script_ipc::error::IpcError;
use ckb_script_ipc::vlq::{decode_vlq, decode_vlq_prefix, encode_vlq};

fn decode_all(bytes: &[u8]) -> (Result<u64, IpcError>, usize) {
    let mut src: &[u8] = bytes;
    let r = decode_vlq(&mut src);
    (r, bytes.len() - src.len())
}

#[test]
fn vlq_encodes_known_values() {
    assert_eq!(encode_vlq(0), vec![0x00]);
    assert_eq!(encode_vlq(1), vec![0x01]);
    assert_eq!(encode_vlq(127), vec![0x7f]);
    assert_eq!(encode_vlq(128), vec![0x80, 0x01]);
    assert_eq!(encode_vlq(300), vec![0xac, 0x02]);
    assert_eq!(encode_vlq(16383), vec![0xff, 0x7f]);
    assert_eq!(encode_vlq(16384), vec![0x80, 0x80, 0x01]);
}

#[test]
fn vlq_encodes_largest_value_in_ten_bytes() {
    let e = encode_vlq(u64::MAX);
    assert_eq!(e.len(), 10);
    assert_eq!(&e[..9], &[0xff; 9]);
    assert_eq!(e[9], 0x01);
}

#[test]
fn vlq_round_trips() {
    let values = [
        0u64,
        1,
        127,
        128,
        255,
        256,
        300,
        16383,
        16384,
        u32::MAX as u64,
        1 << 56,
        (1 << 63) - 1,
        1 << 63,
        u64::MAX - 1,
        u64::MAX,
    ];
    for v in values {
        let mut bytes = encode_vlq(v);
        let n = bytes.len();
        bytes.extend_from_slice(&[0xaa, 0x80]);
        let (r, used) = decode_all(&bytes);
        assert_eq!(r, Ok(v));
        assert_eq!(used, n);
    }
}

#[test]
fn vlq_encoding_is_canonical() {
    for v in [0u64, 5, 128, 1 << 20, u64::MAX] {
        let e = encode_vlq(v);
        let last = *e.last().unwrap();
        assert!(last < 0x80);
        if e.len() > 1 {
            assert_ne!(last, 0);
        }
        for b in &e[..e.len() - 1] {
            assert!(*b >= 0x80);
        }
    }
}

#[test]
fn vlq_rejects_too_many_groups() {
    let bytes = [0x80u8; 11];
    assert_eq!(decode_all(&bytes).0, Err(IpcError::DecodeVlqOverflow));
    let mut long = vec![0x80u8; 10];
    long.push(0x00);
    assert_eq!(decode_all(&long).0, Err(IpcError::DecodeVlqOverflow));
}

#[test]
fn vlq_rejects_tenth_group_over_one_bit() {
    let mut bytes = vec![0xffu8; 9];
    bytes.push(0x02);
    assert_eq!(decode_all(&bytes).0, Err(IpcError::DecodeVlqOverflow));
    let mut fits = vec![0xffu8; 9];
    fits.push(0x01);
    assert_eq!(decode_all(&fits).0, Ok(u64::MAX));
}

#[test]
fn vlq_reports_incomplete_sequences() {
    assert_eq!(decode_all(&[]).0, Err(IpcError::IncompleteVlqSeq));
    assert_eq!(decode_all(&[0x80]).0, Err(IpcError::IncompleteVlqSeq));
    assert_eq!(decode_all(&[0xff; 9]).0, Err(IpcError::IncompleteVlqSeq));
}

#[test]
fn vlq_accepts_redundant_zero_group_within_width() {
    assert_eq!(decode_all(&[0x81, 0x00]).0, Ok(1));
}

#[test]
fn vlq_prefix_reports_bytes_taken() {
    assert_eq!(decode_vlq_prefix(&[0xac, 0x02, 0x05]), Ok((300, 2)));
    assert_eq!(decode_vlq_prefix(&[0x00]), Ok((0, 1)));
    assert_eq!(decode_vlq_prefix(&[0x80, 0x80]), Err(IpcError::IncompleteVlqSeq));
    assert_eq!(decode_vlq_prefix(&[0x80; 10]), Err(IpcError::DecodeVlqOverflow));
    let e = encode_vlq(u64::MAX);
    assert_eq!(decode_vlq_prefix(&e), Ok((u64::MAX, 10)));
}

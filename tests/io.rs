use std::collections::VecDeque;

use ckb_script_ipc::error::IpcError;
use ckb_script_ipc::io::{read_exact, read_until, write_all, BufRead, FixedBuffer, Read, Write};

#[test]
fn read_exact_fills_buffer_and_consumes_exactly() {
    let data = [1u8, 2, 3, 4, 5];
    let mut src: &[u8] = &data;
    let mut buf = [0u8; 3];
    assert_eq!(read_exact(&mut src, &mut buf), Ok(()));
    assert_eq!(buf, [1, 2, 3]);
    assert_eq!(src, &[4, 5]);
}

#[test]
fn read_exact_short_source_is_eof() {
    let data = [1u8, 2];
    let mut src: &[u8] = &data;
    let mut buf = [0u8; 3];
    assert_eq!(read_exact(&mut src, &mut buf), Err(IpcError::UnexpectedEof));
}

#[test]
fn read_exact_from_deque() {
    let mut q: VecDeque<u8> = VecDeque::new();
    q.extend([9u8, 8, 7, 6]);
    let mut buf = [0u8; 4];
    assert_eq!(read_exact(&mut q, &mut buf), Ok(()));
    assert_eq!(buf, [9, 8, 7, 6]);
    assert!(q.is_empty());
    let mut more = [0u8; 1];
    assert_eq!(read_exact(&mut q, &mut more), Err(IpcError::UnexpectedEof));
}

#[test]
fn slice_read_is_bounded_by_both_sides() {
    let data = [1u8, 2, 3];
    let mut src: &[u8] = &data;
    let mut buf = [0u8; 2];
    assert_eq!(src.read(&mut buf), Ok(2));
    assert_eq!(buf, [1, 2]);
    let mut big = [0u8; 5];
    assert_eq!(src.read(&mut big), Ok(1));
    assert_eq!(big[0], 3);
    assert_eq!(src.read(&mut big), Ok(0));
}

#[test]
fn write_all_into_small_fixed_buffer_is_short_write() {
    let mut sink = FixedBuffer::new(3);
    assert_eq!(write_all(&mut sink, &[1, 2, 3, 4]), Err(IpcError::SliceWriteError));
    assert_eq!(sink.as_slice(), &[1, 2, 3]);
}

#[test]
fn write_all_into_large_enough_fixed_buffer() {
    let mut sink = FixedBuffer::new(4);
    assert_eq!(write_all(&mut sink, &[1, 2, 3, 4]), Ok(()));
    assert_eq!(sink.as_slice(), &[1, 2, 3, 4]);
    assert_eq!(sink.write(&[5]), Ok(0));
}

#[test]
fn fixed_buffer_write_takes_what_fits() {
    let mut sink = FixedBuffer::new(2);
    assert_eq!(sink.write(&[1, 2, 3]), Ok(2));
    assert_eq!(sink.flush(), Ok(()));
    assert_eq!(sink.as_slice(), &[1, 2]);
}

#[test]
fn growable_sinks_take_everything() {
    let mut v: Vec<u8> = vec![0];
    assert_eq!(write_all(&mut v, &[1, 2]), Ok(()));
    assert_eq!(v, vec![0, 1, 2]);
    let mut q: VecDeque<u8> = VecDeque::new();
    assert_eq!(q.write(&[3, 4]), Ok(2));
    assert_eq!(q.flush(), Ok(()));
    assert_eq!(q.iter().copied().collect::<Vec<u8>>(), vec![3, 4]);
}

#[test]
fn read_until_stops_after_delimiter() {
    let data = b"ab,cd,ef";
    let mut src: &[u8] = data;
    let mut out = vec![b'>'];
    assert_eq!(read_until(&mut src, b',', &mut out), Ok(3));
    assert_eq!(out, b">ab,".to_vec());
    assert_eq!(src, b"cd,ef");
    let mut rest = Vec::new();
    assert_eq!(read_until(&mut src, b',', &mut rest), Ok(3));
    assert_eq!(read_until(&mut src, b',', &mut rest), Ok(2));
    assert_eq!(rest, b"cd,ef".to_vec());
    assert_eq!(read_until(&mut src, b',', &mut rest), Ok(0));
}

#[test]
fn read_until_without_delimiter_takes_everything() {
    let mut src: &[u8] = &[1, 2, 3];
    let mut out = Vec::new();
    assert_eq!(read_until(&mut src, 9, &mut out), Ok(3));
    assert_eq!(out, vec![1, 2, 3]);
    assert!(src.is_empty());
}

#[test]
fn slice_fill_buf_and_consume() {
    let mut src: &[u8] = &[4, 5, 6];
    assert_eq!(src.fill_buf(), Ok(&[4u8, 5, 6][..]));
    src.consume(2);
    assert_eq!(src.fill_buf(), Ok(&[6u8][..]));
}

#[test]
fn boxed_streams_forward() {
    let data = [1u8, 2, 3];
    let mut boxed: Box<&[u8]> = Box::new(&data[..]);
    let mut buf = [0u8; 2];
    assert_eq!(read_exact(&mut boxed, &mut buf), Ok(()));
    assert_eq!(buf, [1, 2]);
    let mut out: Box<Vec<u8>> = Box::new(Vec::new());
    assert_eq!(write_all(&mut out, &[7, 8]), Ok(()));
    assert_eq!(*out, vec![7, 8]);
    let mut src: Box<&[u8]> = Box::new(&b"x;y"[..]);
    let mut got = Vec::new();
    assert_eq!(read_until(&mut src, b';', &mut got), Ok(2));
    assert_eq!(got, b"x;".to_vec());
}

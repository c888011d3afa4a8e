use std::collections::VecDeque;

use ckb_script_ipc::channel::{reply_code, Channel};
use ckb_script_ipc::error::{IpcError, ProtocolErrorCode};
use ckb_script_ipc::io::{FixedBuffer, Read, Write};
use ckb_script_ipc::ipc::Serve;
use ckb_script_ipc::packet::{RequestPacket, ResponsePacket};
use ckb_script_ipc::pipe::Pipe;
use ckb_script_ipc::world::hello_reply;
use ckb_std::error::SysError;

/// Greets the UTF-8 name it is sent, with serde_molecule on both sides.
struct Greeter {
    served: usize,
}

impl Serve for Greeter {
    fn serve(&mut self, req: Vec<u8>) -> Result<Vec<u8>, IpcError> {
        self.served += 1;
        let name: String =
            serde_molecule::from_slice(&req, false).map_err(|_| IpcError::DeserializeError)?;
        let reply: Result<String, u64> = hello_reply(&name);
        serde_molecule::to_vec(&reply, false).map_err(|_| IpcError::SerializeError)
    }
}

/// Fails every request with the given error.
struct Failing(IpcError);

impl Serve for Failing {
    fn serve(&mut self, _req: Vec<u8>) -> Result<Vec<u8>, IpcError> {
        Err(match &self.0 {
            IpcError::DeserializeError => IpcError::DeserializeError,
            _ => IpcError::SerializeError,
        })
    }
}

fn deque(bytes: &[u8]) -> VecDeque<u8> {
    bytes.iter().copied().collect()
}

fn request_stream(names: &[&str]) -> Vec<u8> {
    let mut out = Vec::new();
    for name in names {
        let payload = serde_molecule::to_vec(&name.to_string(), false).unwrap();
        out.extend(RequestPacket::new(payload).serialize());
    }
    out
}

/// Runs a server over `input` with `Greeter` and returns what it wrote.
fn serve_all(input: &[u8]) -> (Result<(), IpcError>, Vec<u8>) {
    let mut server = Channel::new(deque(input), VecDeque::new());
    let mut greeter = Greeter { served: 0 };
    loop {
        match server.serve_one(&mut greeter) {
            Ok(true) => continue,
            Ok(false) => break,
            Err(e) => {
                let (_, out) = server.into_parts();
                return (Err(e), out.into_iter().collect());
            }
        }
    }
    let (_, out) = server.into_parts();
    (Ok(()), out.into_iter().collect())
}

fn call_against(server_output: Vec<u8>, name: &str) -> (Result<Vec<u8>, IpcError>, Vec<u8>) {
    let mut client = Channel::new(deque(&server_output), Vec::new());
    let payload = serde_molecule::to_vec(&name.to_string(), false).unwrap();
    let r = client.call("World.hello", payload);
    let (_, sent) = client.into_parts();
    (r, sent)
}

#[test]
fn end_to_end_hello_world() {
    let (r, answers) = serve_all(&request_stream(&["world"]));
    assert_eq!(r, Ok(()));
    let mut src: &[u8] = &answers;
    let resp = ResponsePacket::read_from(&mut src).unwrap();
    assert_eq!(resp.error_code(), 0);

    let (reply, sent) = call_against(answers.clone(), "world");
    assert_eq!(sent, request_stream(&["world"]));
    let value: Result<String, u64> = serde_molecule::from_slice(&reply.unwrap(), false).unwrap();
    assert_eq!(value, Ok("hello, world".to_string()));
}

#[test]
fn end_to_end_application_error_is_a_value() {
    let (r, answers) = serve_all(&request_stream(&["error"]));
    assert_eq!(r, Ok(()));
    let (reply, _) = call_against(answers, "error");
    let value: Result<String, u64> = serde_molecule::from_slice(&reply.unwrap(), false).unwrap();
    assert_eq!(value, Err(1));
}

#[test]
fn server_answers_each_request_in_order() {
    let (r, answers) = serve_all(&request_stream(&["a", "error", "b"]));
    assert_eq!(r, Ok(()));
    let mut src: &[u8] = &answers;
    let mut got = Vec::new();
    for _ in 0..3 {
        let resp = ResponsePacket::read_from(&mut src).unwrap();
        assert_eq!(resp.error_code(), 0);
        let v: Result<String, u64> = serde_molecule::from_slice(resp.payload(), false).unwrap();
        got.push(v);
    }
    assert!(src.is_empty());
    assert_eq!(got, vec![Ok("hello, a".to_string()), Err(1), Ok("hello, b".to_string())]);
}

#[test]
fn server_stops_cleanly_at_frame_boundary() {
    let mut greeter = Greeter { served: 0 };
    let mut server = Channel::new(deque(&request_stream(&["x", "y"])), VecDeque::new());
    assert_eq!(server.execute(&mut greeter), Ok(()));
    assert_eq!(greeter.served, 2);

    let mut idle = Channel::new(VecDeque::new(), VecDeque::new());
    assert_eq!(idle.execute(&mut greeter), Ok(()));
    assert_eq!(greeter.served, 2);
}

#[test]
fn server_reports_close_mid_frame() {
    let mut stream = request_stream(&["x"]);
    let full = request_stream(&["longer name"]);
    stream.extend_from_slice(&full[..full.len() - 1]);
    let mut greeter = Greeter { served: 0 };
    let mut server = Channel::new(deque(&stream), VecDeque::new());
    assert_eq!(server.execute(&mut greeter), Err(IpcError::UnexpectedEof));
    assert_eq!(greeter.served, 1);

    let mut cut_length = Channel::new(deque(&[0x80]), VecDeque::new());
    assert_eq!(cut_length.execute(&mut greeter), Err(IpcError::IncompleteVlqSeq));
}

#[test]
fn undecodable_request_gets_protocol_code() {
    let mut server = Channel::new(deque(&RequestPacket::new(vec![1]).serialize()), Vec::new());
    let mut failing = Failing(IpcError::DeserializeError);
    assert_eq!(server.serve_one(&mut failing), Ok(true));
    let (_, out) = server.into_parts();
    let mut src: &[u8] = &out;
    let resp = ResponsePacket::read_from(&mut src).unwrap();
    assert_eq!(resp.error_code(), ProtocolErrorCode::DeserializeError.code());
    assert!(resp.payload().is_empty());

    let (reply, _) = call_against(out, "anything");
    assert_eq!(reply, Err(IpcError::ProtocolError(1)));
}

#[test]
fn other_handler_errors_stop_the_server() {
    let mut server = Channel::new(deque(&RequestPacket::new(vec![1]).serialize()), Vec::new());
    let mut failing = Failing(IpcError::SerializeError);
    assert_eq!(server.execute(&mut failing), Err(IpcError::SerializeError));
}

#[test]
fn protocol_codes() {
    assert_eq!(ProtocolErrorCode::DeserializeError.code(), 1);
    assert_eq!(ProtocolErrorCode::OtherEndClosed.code(), 2);
    assert_eq!(reply_code(&IpcError::DeserializeError), Some(1));
    assert_eq!(reply_code(&IpcError::UnexpectedEof), None);
}

#[test]
fn client_call_with_truncated_response_is_framing_error() {
    let full = ResponsePacket::new(0, vec![1, 2, 3]).serialize();
    let (reply, _) = call_against(full[..full.len() - 1].to_vec(), "x");
    assert_eq!(reply, Err(IpcError::UnexpectedEof));
    let (reply, _) = call_against(Vec::new(), "x");
    assert_eq!(reply, Err(IpcError::UnexpectedEof));
}

#[test]
fn send_request_and_response_frames() {
    let mut ch = Channel::new(VecDeque::new(), Vec::new());
    assert_eq!(ch.send_request(vec![4, 5]), Ok(()));
    assert_eq!(ch.send_response(2, vec![6]), Ok(()));
    let (_, out) = ch.into_parts();
    assert_eq!(out, vec![2, 4, 5, 2, 0, 0, 0, 0, 0, 0, 0, 1, 6]);

    let mut rx = Channel::new(deque(&[2, 4, 5]), Vec::new());
    assert_eq!(rx.receive_request(), Ok(vec![4, 5]));
    let mut rx = Channel::new(deque(&[2, 0, 0, 0, 0, 0, 0, 0, 1, 6]), Vec::new());
    assert_eq!(rx.receive_response(), Err(IpcError::ProtocolError(2)));
}

#[test]
fn respond_writes_frame_for_each_outcome() {
    let mut ch = Channel::new(VecDeque::new(), Vec::new());
    assert_eq!(ch.respond(Ok(vec![7, 8])), Ok(true));
    assert_eq!(ch.respond(Err(IpcError::DeserializeError)), Ok(true));
    assert_eq!(ch.respond(Err(IpcError::ReadVlqError)), Err(IpcError::ReadVlqError));
    let (_, out) = ch.into_parts();
    let mut expected = ResponsePacket::new(0, vec![7, 8]).serialize();
    expected.extend(ResponsePacket::new(1, vec![]).serialize());
    assert_eq!(out, expected);
}

#[test]
fn pipe_syscalls_fail_outside_the_ckb_vm() {
    let mut p = Pipe::new(3);
    assert_eq!(p.fd(), 3);
    let mut buf = [0u8; 4];
    assert_eq!(p.read(&mut buf), Err(IpcError::CkbSysError(SysError::Unknown(u64::MAX))));
    assert_eq!(p.write(&[1, 2]), Err(IpcError::CkbSysError(SysError::Unknown(u64::MAX))));
    assert_eq!(p.flush(), Ok(()));
}

#[test]
fn execute_writes_one_frame_per_request_in_order() {
    let mut server = Channel::new(deque(&request_stream(&["a", "b"])), Vec::new());
    let mut greeter = Greeter { served: 0 };
    assert_eq!(server.execute(&mut greeter), Ok(()));
    let (rest, out) = server.into_parts();
    assert!(rest.is_empty());
    let mut expected = Vec::new();
    for name in ["a", "b"] {
        let reply: Result<String, u64> = hello_reply(name);
        let payload = serde_molecule::to_vec(&reply, false).unwrap();
        expected.extend(ResponsePacket::new(0, payload).serialize());
    }
    assert_eq!(out, expected);
}

#[test]
fn execute_answers_undecodable_request_and_goes_on() {
    let mut stream = RequestPacket::new(vec![0xff]).serialize();
    stream.extend(request_stream(&["z"]));
    let mut server = Channel::new(deque(&stream), Vec::new());
    let mut greeter = Greeter { served: 0 };
    assert_eq!(server.execute(&mut greeter), Ok(()));
    let (_, out) = server.into_parts();
    let mut src: &[u8] = &out;
    assert_eq!(ResponsePacket::read_from(&mut src).unwrap().error_code(), 1);
    assert_eq!(ResponsePacket::read_from(&mut src).unwrap().error_code(), 0);
    assert!(src.is_empty());
}

#[test]
fn call_with_failed_send_reads_nothing() {
    let reply = ResponsePacket::new(0, vec![1]).serialize();
    let mut client = Channel::new(deque(&reply), FixedBuffer::new(1));
    assert_eq!(client.call("World.hello", vec![1, 2, 3]), Err(IpcError::SliceWriteError));
    let (rest, _) = client.into_parts();
    assert_eq!(rest.into_iter().collect::<Vec<u8>>(), reply);
}

#[test]
fn call_consumes_exactly_the_response_frame() {
    let mut input = ResponsePacket::new(0, vec![5]).serialize();
    input.extend_from_slice(&[0xaa, 0xbb]);
    let mut client = Channel::new(deque(&input), Vec::new());
    assert_eq!(client.call("a", vec![1]), Ok(vec![5]));
    let (rest, sent) = client.into_parts();
    assert_eq!(rest.into_iter().collect::<Vec<u8>>(), vec![0xaa, 0xbb]);
    assert_eq!(sent, vec![1, 1]);
}

#[test]
fn length_read_failure_on_pipe_is_read_vlq_error() {
    let mut p = Pipe::new(9);
    assert_eq!(RequestPacket::read_from(&mut p).err(), Some(IpcError::ReadVlqError));
}

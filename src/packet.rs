use vstd::prelude::*;
use vstd::bytes::{
    spec_u64_from_le_bytes, spec_u64_to_le_bytes, u64_from_le_bytes, u64_to_le_bytes,
};

use crate::error::IpcError;
use crate::io::{read_exact, Read};
use crate::vlq::{decode_vlq_after, encode_vlq, read_byte, vlq_bytes, vlq_decoded};

verus! {

/// Largest piece of a payload read in one go, so that a length read off the
/// wire never makes a large allocation ahead of the bytes it announces.
pub const PAYLOAD_CHUNK: u64 = 1024;

/// The bytes of a request frame: the payload's length, then the payload.
pub open spec fn request_frame(payload: Seq<u8>) -> Seq<u8> {
    vlq_bytes(payload.len()) + payload
}

/// The bytes of a response frame: the error code in eight little-endian
/// bytes, then a request frame of the payload.
pub open spec fn response_frame(error_code: u64, payload: Seq<u8>) -> Seq<u8> {
    spec_u64_to_le_bytes(error_code) + request_frame(payload)
}

/// What parsing a request frame from the front of `s` yields: the payload and
/// the number of bytes the frame took, or why it fails.
pub open spec fn request_parsed(s: Seq<u8>) -> Result<(Seq<u8>, nat), IpcError> {
    match vlq_decoded(s) {
        Err(e) => Err(e),
        Ok((len, n)) => if n + len <= s.len() {
            Ok((s.subrange(n as int, n + len), (n + len) as nat))
        } else {
            Err(IpcError::UnexpectedEof)
        },
    }
}

/// What parsing a response frame from the front of `s` yields: the error
/// code and payload, and the number of bytes the frame took, or why it fails.
pub open spec fn response_parsed(s: Seq<u8>) -> Result<(u64, Seq<u8>, nat), IpcError> {
    if s.len() < 8 {
        Err(IpcError::UnexpectedEof)
    } else {
        match request_parsed(s.skip(8)) {
            Err(e) => Err(e),
            Ok((payload, n)) => Ok((spec_u64_from_le_bytes(s.take(8)), payload, (n + 8) as nat)),
        }
    }
}

/// Reads exactly `len` bytes, in pieces of at most `PAYLOAD_CHUNK`.
pub fn read_payload<R: Read>(reader: &mut R, len: u64) -> (r: Result<Vec<u8>, IpcError>)
    ensures
        r is Ok ==> r->Ok_0@.len() == len,
        old(reader).is_modeled() ==> {
            &&& final(reader).is_modeled()
            &&& (r is Ok <==> len <= old(reader).unread().len())
            &&& (r is Ok ==> {
                &&& r->Ok_0@ == old(reader).unread().take(len as int)
                &&& final(reader).unread() == old(reader).unread().skip(len as int)
            })
            &&& (r is Err ==> r == Err::<Vec<u8>, IpcError>(IpcError::UnexpectedEof))
        },
{
    let ghost s = old(reader).unread();
    let ghost m = old(reader).is_modeled();
    let mut out: Vec<u8> = Vec::new();
    let mut remaining: u64 = len;
    while remaining > 0
        invariant
            remaining <= len,
            out@.len() == len - remaining,
            s == old(reader).unread(),
            m == old(reader).is_modeled(),
            m ==> {
                &&& reader.is_modeled()
                &&& out@.len() <= s.len()
                &&& out@ == s.take(out@.len() as int)
                &&& reader.unread() == s.skip(out@.len() as int)
            },
        decreases remaining,
    {
        let step: u64 = if remaining < PAYLOAD_CHUNK {
            remaining
        } else {
            PAYLOAD_CHUNK
        };
        let mut chunk: Vec<u8> = Vec::new();
        let mut k: u64 = 0;
        while k < step
            invariant
                k <= step <= PAYLOAD_CHUNK,
                chunk@.len() == k,
            decreases step - k,
        {
            chunk.push(0u8);
            k = k + 1;
        }
        let ghost before = reader.unread();
        match read_exact(reader, chunk.as_mut_slice()) {
            Ok(()) => {},
            Err(e) => {
                proof {
                    if m {
                        assert(before.len() < step);
                    }
                }
                return Err(e);
            },
        }
        let ghost prev = out@;
        let mut i: usize = 0;
        while i < chunk.len()
            invariant
                i <= chunk@.len(),
                out@ == prev + chunk@.take(i as int),
            decreases chunk@.len() - i,
        {
            out.push(chunk[i]);
            assert(chunk@.take(i + 1) =~= chunk@.take(i as int).push(chunk@[i as int]));
            i = i + 1;
        }
        proof {
            assert(chunk@.take(i as int) =~= chunk@);
            if m {
                assert(out@ =~= s.take(out@.len() as int));
                assert(reader.unread() =~= s.skip(out@.len() as int));
            }
        }
        remaining = remaining - step;
    }
    Ok(out)
}

/// Reads the rest of a request frame whose first byte, `first`, was already
/// taken from `reader`.
fn read_request_after<R: Read>(reader: &mut R, first: u8) -> (r: Result<Vec<u8>, IpcError>)
    ensures
        ({
            let s = seq![first] + old(reader).unread();
            old(reader).is_modeled() ==> {
                &&& final(reader).is_modeled()
                &&& (r is Ok <==> request_parsed(s) is Ok)
                &&& (r is Ok ==> {
                    &&& r->Ok_0@ == request_parsed(s)->Ok_0.0
                    &&& final(reader).unread() == s.skip(request_parsed(s)->Ok_0.1 as int)
                })
                &&& (r is Err ==> r->Err_0 == request_parsed(s)->Err_0)
            }
        }),
{
    let ghost s = seq![first] + old(reader).unread();
    let len = decode_vlq_after(reader, first)?;
    let ghost n = vlq_decoded(s)->Ok_0.1;
    let ghost mid = reader.unread();
    let payload = read_payload(reader, len);
    proof {
        if old(reader).is_modeled() && n + len <= s.len() {
            assert(mid.take(len as int) =~= s.subrange(n as int, n + len));
            assert(mid.skip(len as int) =~= s.skip(n + len));
        }
    }
    payload
}

/// Appends the request frame of `payload` to `out`.
fn append_frame(out: &mut Vec<u8>, payload: &[u8])
    requires
        payload@.len() <= u64::MAX,
    ensures
        final(out)@ == old(out)@ + request_frame(payload@),
{
    let head = encode_vlq(payload.len() as u64);
    let mut i: usize = 0;
    while i < head.len()
        invariant
            i <= head@.len(),
            out@ == old(out)@ + head@.take(i as int),
        decreases head@.len() - i,
    {
        out.push(head[i]);
        assert(head@.take(i + 1) =~= head@.take(i as int).push(head@[i as int]));
        i = i + 1;
    }
    assert(head@.take(i as int) =~= head@);
    let ghost mid = out@;
    let mut j: usize = 0;
    while j < payload.len()
        invariant
            j <= payload@.len(),
            out@ == mid + payload@.take(j as int),
        decreases payload@.len() - j,
    {
        out.push(payload[j]);
        assert(payload@.take(j + 1) =~= payload@.take(j as int).push(payload@[j as int]));
        j = j + 1;
    }
    assert(payload@.take(j as int) =~= payload@);
    assert(out@ =~= old(out)@ + request_frame(payload@));
}

/// A request frame: an opaque serialized request.
pub struct RequestPacket {
    payload: Vec<u8>,
}

impl View for RequestPacket {
    type V = Seq<u8>;

    closed spec fn view(&self) -> Seq<u8> {
        self.payload@
    }
}

impl RequestPacket {
    pub fn new(payload: Vec<u8>) -> (r: Self)
        ensures
            r@ == payload@,
    {
        RequestPacket { payload }
    }

    pub fn payload(&self) -> (r: &[u8])
        ensures
            r@ == self@,
    {
        self.payload.as_slice()
    }

    /// Hands the payload over.
    pub fn into_payload(self) -> (r: Vec<u8>)
        ensures
            r@ == self@,
    {
        self.payload
    }

    /// The frame's bytes on the wire.
    pub fn serialize(&self) -> (r: Vec<u8>)
        ensures
            r@ == request_frame(self@),
    {
        let len = self.payload.len();
        assert(len as nat <= u64::MAX);
        let mut out: Vec<u8> = Vec::new();
        append_frame(&mut out, self.payload.as_slice());
        assert(out@ =~= request_frame(self@));
        out
    }

    /// Reads one request frame, or `None` when the source has ended exactly
    /// at a frame boundary.
    pub fn read_or_end<R: Read>(reader: &mut R) -> (r: Result<Option<Self>, IpcError>)
        ensures
            ({
                let s = old(reader).unread();
                old(reader).is_modeled() ==> {
                    &&& final(reader).is_modeled()
                    &&& (r matches Ok(None) <==> s.len() == 0)
                    &&& (r matches Ok(None) ==> final(reader).unread() == s)
                    &&& (r matches Ok(Some(_)) <==> s.len() > 0 && request_parsed(s) is Ok)
                    &&& (r matches Ok(Some(p)) ==> {
                        &&& p@ == request_parsed(s)->Ok_0.0
                        &&& final(reader).unread() == s.skip(request_parsed(s)->Ok_0.1 as int)
                    })
                    &&& (r is Err ==> r->Err_0 == request_parsed(s)->Err_0)
                }
            }),
    {
        match read_byte(reader) {
            Ok(None) => Ok(None),
            Ok(Some(first)) => {
                proof {
                    if old(reader).is_modeled() {
                        assert(seq![first] + reader.unread() =~= old(reader).unread());
                    }
                }
                let payload = read_request_after(reader, first)?;
                Ok(Some(RequestPacket { payload }))
            },
            Err(_) => Err(IpcError::ReadVlqError),
        }
    }

    /// Reads one request frame; a source that has already ended gives
    /// `IncompleteVlqSeq`.
    pub fn read_from<R: Read>(reader: &mut R) -> (r: Result<Self, IpcError>)
        ensures
            ({
                let s = old(reader).unread();
                old(reader).is_modeled() ==> {
                    &&& final(reader).is_modeled()
                    &&& (r is Ok <==> request_parsed(s) is Ok)
                    &&& (r is Ok ==> {
                        &&& r->Ok_0@ == request_parsed(s)->Ok_0.0
                        &&& final(reader).unread() == s.skip(request_parsed(s)->Ok_0.1 as int)
                    })
                    &&& (r is Err ==> r->Err_0 == request_parsed(s)->Err_0)
                }
            }),
    {
        match Self::read_or_end(reader) {
            Ok(Some(p)) => Ok(p),
            Ok(None) => {
                proof {
                    if old(reader).is_modeled() {
                        assert forall|n: nat|
                            n <= crate::vlq::MAX_VLQ_GROUPS implies !crate::vlq::terminated_at(
                            old(reader).unread(),
                            n,
                        ) by {}
                    }
                }
                Err(IpcError::IncompleteVlqSeq)
            },
            Err(e) => Err(e),
        }
    }
}

/// A response frame: an error code, zero on success, and an opaque
/// serialized response.
pub struct ResponsePacket {
    error_code: u64,
    payload: Vec<u8>,
}

impl View for ResponsePacket {
    type V = (u64, Seq<u8>);

    closed spec fn view(&self) -> (u64, Seq<u8>) {
        (self.error_code, self.payload@)
    }
}

impl ResponsePacket {
    pub fn new(error_code: u64, payload: Vec<u8>) -> (r: Self)
        ensures
            r@ == (error_code, payload@),
    {
        ResponsePacket { error_code, payload }
    }

    pub fn error_code(&self) -> (r: u64)
        ensures
            r == self@.0,
    {
        self.error_code
    }

    pub fn payload(&self) -> (r: &[u8])
        ensures
            r@ == self@.1,
    {
        self.payload.as_slice()
    }

    /// Hands the payload over.
    pub fn into_payload(self) -> (r: Vec<u8>)
        ensures
            r@ == self@.1,
    {
        self.payload
    }

    /// The frame's bytes on the wire.
    pub fn serialize(&self) -> (r: Vec<u8>)
        ensures
            r@ == response_frame(self@.0, self@.1),
    {
        let len = self.payload.len();
        assert(len as nat <= u64::MAX);
        let mut out = u64_to_le_bytes(self.error_code);
        append_frame(&mut out, self.payload.as_slice());
        out
    }

    /// Reads one response frame.
    pub fn read_from<R: Read>(reader: &mut R) -> (r: Result<Self, IpcError>)
        ensures
            ({
                let s = old(reader).unread();
                old(reader).is_modeled() ==> {
                    &&& final(reader).is_modeled()
                    &&& (r is Ok <==> response_parsed(s) is Ok)
                    &&& (r is Ok ==> {
                        &&& r->Ok_0@.0 == response_parsed(s)->Ok_0.0
                        &&& r->Ok_0@.1 == response_parsed(s)->Ok_0.1
                        &&& final(reader).unread() == s.skip(response_parsed(s)->Ok_0.2 as int)
                    })
                    &&& (r is Err ==> r->Err_0 == response_parsed(s)->Err_0)
                }
            }),
    {
        let ghost s = old(reader).unread();
        let mut code_bytes: Vec<u8> = vec![0u8, 0u8, 0u8, 0u8, 0u8, 0u8, 0u8, 0u8];
        read_exact(reader, code_bytes.as_mut_slice())?;
        let error_code = u64_from_le_bytes(code_bytes.as_slice());
        let ghost rest = reader.unread();
        let ghost m = old(reader).is_modeled();
        match read_byte(reader) {
            Ok(Some(first)) => {
                proof {
                    if m {
                        assert(seq![first] + reader.unread() =~= rest);
                    }
                }
                let payload = read_request_after(reader, first)?;
                proof {
                    if m && request_parsed(rest) is Ok {
                        assert(rest.skip(request_parsed(rest)->Ok_0.1 as int) =~= s.skip(
                            (request_parsed(rest)->Ok_0.1 + 8) as int,
                        ));
                    }
                }
                Ok(ResponsePacket { error_code, payload })
            },
            Ok(None) => {
                proof {
                    if m {
                        assert forall|n: nat|
                            n <= crate::vlq::MAX_VLQ_GROUPS implies !crate::vlq::terminated_at(
                            rest,
                            n,
                        ) by {}
                    }
                }
                Err(IpcError::IncompleteVlqSeq)
            },
            Err(_) => Err(IpcError::ReadVlqError),
        }
    }
}

} // verus!

verus! {

/// Parsing a request frame gives back its payload and consumes exactly the
/// frame, whatever bytes follow it.
pub proof fn lemma_request_round_trip(payload: Seq<u8>, rest: Seq<u8>)
    requires
        payload.len() <= u64::MAX,
    ensures
        request_parsed(request_frame(payload) + rest) == Ok::<(Seq<u8>, nat), IpcError>(
            (payload, request_frame(payload).len()),
        ),
{
    let e = vlq_bytes(payload.len());
    crate::vlq::lemma_vlq_round_trip(payload.len() as u64, payload + rest);
    let s = request_frame(payload) + rest;
    assert(s =~= e + (payload + rest));
    assert(s.subrange(e.len() as int, (e.len() + payload.len()) as int) =~= payload);
}

/// Parsing a response frame gives back its error code and payload and
/// consumes exactly the frame, whatever bytes follow it.
pub proof fn lemma_response_round_trip(error_code: u64, payload: Seq<u8>, rest: Seq<u8>)
    requires
        payload.len() <= u64::MAX,
    ensures
        response_parsed(response_frame(error_code, payload) + rest) == Ok::<
            (u64, Seq<u8>, nat),
            IpcError,
        >((error_code, payload, response_frame(error_code, payload).len())),
{
    vstd::bytes::lemma_auto_spec_u64_to_from_le_bytes();
    let c = spec_u64_to_le_bytes(error_code);
    let s = response_frame(error_code, payload) + rest;
    assert(s.take(8) =~= c);
    assert(s.skip(8) =~= request_frame(payload) + rest);
    lemma_request_round_trip(payload, rest);
}

/// Every proper prefix of a request frame fails to parse: inside the length
/// with `IncompleteVlqSeq`, inside the payload with `UnexpectedEof`. No
/// partial packet ever comes out.
pub proof fn lemma_truncated_request(payload: Seq<u8>, k: nat)
    requires
        payload.len() <= u64::MAX,
        k < request_frame(payload).len(),
    ensures
        request_parsed(request_frame(payload).take(k as int)) == Err::<(Seq<u8>, nat), IpcError>(
            if k < vlq_bytes(payload.len()).len() {
                IpcError::IncompleteVlqSeq
            } else {
                IpcError::UnexpectedEof
            },
        ),
{
    let e = vlq_bytes(payload.len());
    let t = request_frame(payload).take(k as int);
    crate::vlq::lemma_vlq_round_trip(payload.len() as u64, Seq::<u8>::empty());
    if k < e.len() {
        assert(t =~= e.take(k as int));
        assert forall|n: nat| n <= crate::vlq::MAX_VLQ_GROUPS implies !crate::vlq::terminated_at(
            t,
            n,
        ) by {
            if crate::vlq::terminated_at(t, n) {
                assert(t[n - 1] == e[n - 1]);
            }
        }
    } else {
        let tail = payload.take((k - e.len()) as int);
        crate::vlq::lemma_vlq_round_trip(payload.len() as u64, tail);
        assert(t =~= e + tail);
    }
}

/// Every proper prefix of a response frame fails to parse: inside the error
/// code or the payload with `UnexpectedEof`, inside the length with
/// `IncompleteVlqSeq`.
pub proof fn lemma_truncated_response(error_code: u64, payload: Seq<u8>, k: nat)
    requires
        payload.len() <= u64::MAX,
        k < response_frame(error_code, payload).len(),
    ensures
        response_parsed(response_frame(error_code, payload).take(k as int)) == Err::<
            (u64, Seq<u8>, nat),
            IpcError,
        >(
            if 8 <= k < 8 + vlq_bytes(payload.len()).len() {
                IpcError::IncompleteVlqSeq
            } else {
                IpcError::UnexpectedEof
            },
        ),
{
    vstd::bytes::lemma_auto_spec_u64_to_from_le_bytes();
    let c = spec_u64_to_le_bytes(error_code);
    let t = response_frame(error_code, payload).take(k as int);
    if k >= 8 {
        assert(t.skip(8) =~= request_frame(payload).take((k - 8) as int));
        lemma_truncated_request(payload, (k - 8) as nat);
    }
}

} // verus!

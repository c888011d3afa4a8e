use vstd::prelude::*;

use crate::error::{IpcError, ProtocolErrorCode};
use crate::io::{write_all, Read, Write};
use crate::ipc::{outcome_view, Serve};
use crate::pipe::peer_closed;
use crate::packet::{
    request_frame, request_parsed, response_frame, response_parsed, RequestPacket,
    ResponsePacket,
};

verus! {

/// What a server loop does with an error from its handler: the error code to
/// answer with, or `None` to stop and report the error.
pub open spec fn spec_reply_code(e: IpcError) -> Option<u64> {
    match e {
        IpcError::DeserializeError => Some(ProtocolErrorCode::DeserializeError.spec_code()),
        _ => None,
    }
}

pub fn reply_code(e: &IpcError) -> (r: Option<u64>)
    ensures
        r == spec_reply_code(*e),
{
    match e {
        IpcError::DeserializeError => Some(ProtocolErrorCode::DeserializeError.code()),
        _ => None,
    }
}

/// The payload a client's call yields from a parsed response: the payload on
/// a zero error code, else the code as a protocol error.
pub open spec fn call_outcome(error_code: u64, payload: Seq<u8>) -> Result<Seq<u8>, IpcError> {
    if error_code == 0 {
        Ok(payload)
    } else {
        Err(IpcError::ProtocolError(error_code))
    }
}

/// What a client's call yields from the front of the stream `s`: the
/// response payload, a protocol error, or why the frame could not be read.
pub open spec fn response_outcome(s: Seq<u8>) -> Result<Seq<u8>, IpcError> {
    match response_parsed(s) {
        Ok((code, payload, _)) => call_outcome(code, payload),
        Err(e) => Err(e),
    }
}

/// The frame `respond` writes for a handler outcome, or `None` for an error
/// that stops the server instead.
pub open spec fn reply_frame(out: Result<Seq<u8>, IpcError>) -> Option<Seq<u8>> {
    match out {
        Ok(p) => Some(response_frame(0, p)),
        Err(e) => match spec_reply_code(e) {
            Some(c) => Some(response_frame(c, Seq::<u8>::empty())),
            None => None,
        },
    }
}

/// The frames written for `outs`, one after another.
pub open spec fn reply_frames(outs: Seq<Result<Seq<u8>, IpcError>>) -> Seq<u8>
    decreases outs.len(),
{
    if outs.len() == 0 {
        Seq::empty()
    } else {
        reply_frames(outs.drop_last()) + match reply_frame(outs.last()) {
            Some(f) => f,
            None => Seq::<u8>::empty(),
        }
    }
}

/// How many bytes parsing request frames with the payloads `reqs`, in order,
/// takes from the front of `s`; `None` when `s` does not start so.
pub open spec fn parses_as(s: Seq<u8>, reqs: Seq<Seq<u8>>) -> Option<nat>
    decreases reqs.len(),
{
    if reqs.len() == 0 {
        Some(0)
    } else {
        match parses_as(s, reqs.drop_last()) {
            Some(m) => if m <= s.len() {
                match request_parsed(s.skip(m as int)) {
                    Ok((p, n)) => if p == reqs.last() {
                        Some(m + n)
                    } else {
                        None
                    },
                    Err(_) => None,
                }
            } else {
                None
            },
            None => None,
        }
    }
}

/// What `respond` does with the outcome `out`: the writer goes from `w0` to
/// `w1` and the result is `r`.
pub open spec fn respond_step<W: Write>(
    out: Result<Seq<u8>, IpcError>,
    w0: W,
    w1: W,
    r: Result<bool, IpcError>,
) -> bool {
    match reply_frame(out) {
        Some(f) => {
            &&& r == Ok::<bool, IpcError>(true) ==> w1.sink() == w0.sink() + f
            &&& r == Ok::<bool, IpcError>(true) && w0.space() is None ==> w1.space() is None
            &&& w0.writes_never_fail() ==> w1.writes_never_fail()
            &&& (w0.writes_never_fail() && w0.space() is None) ==> r == Ok::<bool, IpcError>(true)
        },
        None => {
            &&& r == Err::<bool, IpcError>(out->Err_0)
            &&& w1 == w0
        },
    }
}

/// A server run from the stream `s` and the writer `w0` to the rest `rest`
/// and the writer `w1`, with result `r`: the handler was handed the payloads
/// `reqs` in stream order and gave the answers `outs`. On a writer that never
/// fails and grows as needed, each answer was written as its frame, in order,
/// and the run ended cleanly at the end of the stream, at a frame that could
/// not be read, or at a handler error that is returned.
pub open spec fn served_run<S: Serve, W: Write>(
    s: Seq<u8>,
    w0: W,
    rest: Seq<u8>,
    w1: W,
    reqs: Seq<Seq<u8>>,
    outs: Seq<Result<Seq<u8>, IpcError>>,
    r: Result<(), IpcError>,
) -> bool {
    let m = parses_as(s, reqs)->Some_0;
    &&& reqs.len() == outs.len()
    &&& forall|i: int| 0 <= i < reqs.len() ==> S::answers(#[trigger] reqs[i], outs[i])
    &&& parses_as(s, reqs) is Some
    &&& m <= s.len()
    &&& (r is Ok || (outs.len() > 0 && reply_frame(outs.last()) is None)) ==> rest == s.skip(
        m as int,
    )
    &&& (w0.writes_never_fail() && w0.space() is None) ==> {
        &&& w1.writes_never_fail()
        &&& w1.space() is None
        &&& w1.sink() == w0.sink() + reply_frames(outs)
        &&& forall|i: int| 0 <= i < outs.len() - 1 ==> #[trigger] reply_frame(outs[i]) is Some
        &&& match r {
            Ok(()) => {
                &&& m == s.len()
                &&& forall|i: int| 0 <= i < outs.len() ==> #[trigger] reply_frame(outs[i]) is Some
            },
            Err(e) => {
                ||| {
                    &&& m < s.len()
                    &&& request_parsed(s.skip(m as int)) == Err::<(Seq<u8>, nat), IpcError>(e)
                    &&& forall|i: int|
                        0 <= i < outs.len() ==> #[trigger] reply_frame(outs[i]) is Some
                }
                ||| {
                    &&& outs.len() > 0
                    &&& reply_frame(outs.last()) is None
                    &&& outs.last() == Err::<Seq<u8>, IpcError>(e)
                }
            },
        }
    }
}

/// How a stream of request frames ends: `None` when it is a whole number of
/// frames, else the error of the first frame that cannot be read.
pub open spec fn stream_end(s: Seq<u8>) -> Option<IpcError>
    decreases s.len(),
{
    if s.len() == 0 {
        None
    } else {
        match request_parsed(s) {
            Err(e) => Some(e),
            Ok((_, n)) => if 0 < n <= s.len() {
                stream_end(s.skip(n as int))
            } else {
                None
            },
        }
    }
}

proof fn lemma_request_parsed_len(s: Seq<u8>)
    requires
        request_parsed(s) is Ok,
    ensures
        0 < request_parsed(s)->Ok_0.1 <= s.len(),
{
}

/// Two endpoints of one conversation: frames are read from `reader` and
/// written to `writer`.
pub struct Channel<R, W> {
    reader: R,
    writer: W,
}

impl<R: Read, W: Write> Channel<R, W> {
    pub closed spec fn reader(&self) -> R {
        self.reader
    }

    pub closed spec fn writer(&self) -> W {
        self.writer
    }

    pub fn new(reader: R, writer: W) -> (r: Self)
        ensures
            r.reader() == reader,
            r.writer() == writer,
    {
        Self { reader, writer }
    }

    /// Gives the two endpoints back.
    pub fn into_parts(self) -> (r: (R, W))
        ensures
            r.0 == self.reader(),
            r.1 == self.writer(),
    {
        (self.reader, self.writer)
    }

    /// Writes one request frame carrying `payload`.
    pub fn send_request(&mut self, payload: Vec<u8>) -> (r: Result<(), IpcError>)
        ensures
            final(self).reader() == old(self).reader(),
            r is Ok ==> final(self).writer().sink() == old(self).writer().sink() + request_frame(
                payload@,
            ),
            r is Ok && old(self).writer().space() is None ==> final(self).writer().space() is None,
            old(self).writer().writes_never_fail() ==> {
                &&& final(self).writer().writes_never_fail()
                &&& (r is Ok <==> match old(self).writer().space() {
                    Some(k) => request_frame(payload@).len() <= k,
                    None => true,
                })
                &&& (r is Err ==> r == Err::<(), IpcError>(IpcError::SliceWriteError))
            },
    {
        let packet = RequestPacket::new(payload);
        let bytes = packet.serialize();
        write_all(&mut self.writer, bytes.as_slice())
    }

    /// Writes one response frame carrying `error_code` and `payload`.
    pub fn send_response(&mut self, error_code: u64, payload: Vec<u8>) -> (r: Result<
        (),
        IpcError,
    >)
        ensures
            final(self).reader() == old(self).reader(),
            r is Ok ==> final(self).writer().sink() == old(self).writer().sink() + response_frame(
                error_code,
                payload@,
            ),
            r is Ok && old(self).writer().space() is None ==> final(self).writer().space() is None,
            old(self).writer().writes_never_fail() ==> {
                &&& final(self).writer().writes_never_fail()
                &&& (r is Ok <==> match old(self).writer().space() {
                    Some(k) => response_frame(error_code, payload@).len() <= k,
                    None => true,
                })
                &&& (r is Err ==> r == Err::<(), IpcError>(IpcError::SliceWriteError))
            },
    {
        let packet = ResponsePacket::new(error_code, payload);
        let bytes = packet.serialize();
        write_all(&mut self.writer, bytes.as_slice())
    }

    /// Reads one request frame and hands over its payload.
    pub fn receive_request(&mut self) -> (r: Result<Vec<u8>, IpcError>)
        ensures
            final(self).writer() == old(self).writer(),
            ({
                let s = old(self).reader().unread();
                old(self).reader().is_modeled() ==> {
                    &&& final(self).reader().is_modeled()
                    &&& (r is Ok <==> request_parsed(s) is Ok)
                    &&& (r is Ok ==> {
                        &&& r->Ok_0@ == request_parsed(s)->Ok_0.0
                        &&& final(self).reader().unread() == s.skip(
                            request_parsed(s)->Ok_0.1 as int,
                        )
                    })
                    &&& (r is Err ==> r->Err_0 == request_parsed(s)->Err_0)
                }
            }),
    {
        let packet = RequestPacket::read_from(&mut self.reader)?;
        Ok(packet.into_payload())
    }

    /// Reads one response frame: its payload on a zero error code, else the
    /// code as `ProtocolError`.
    pub fn receive_response(&mut self) -> (r: Result<Vec<u8>, IpcError>)
        ensures
            final(self).writer() == old(self).writer(),
            ({
                let s = old(self).reader().unread();
                old(self).reader().is_modeled() ==> {
                    &&& final(self).reader().is_modeled()
                    &&& (r is Ok <==> response_outcome(s) is Ok)
                    &&& (r is Ok ==> r->Ok_0@ == response_outcome(s)->Ok_0)
                    &&& (r is Err ==> r->Err_0 == response_outcome(s)->Err_0)
                    &&& (response_parsed(s) is Ok ==> final(self).reader().unread() == s.skip(
                        response_parsed(s)->Ok_0.2 as int,
                    ))
                }
            }),
    {
        let packet = ResponsePacket::read_from(&mut self.reader)?;
        let code = packet.error_code();
        if code != 0 {
            return Err(IpcError::ProtocolError(code));
        }
        Ok(packet.into_payload())
    }

    /// Makes one call: writes a request frame carrying `payload`, then reads
    /// the response. `_method_name` only labels the call. When the request
    /// cannot be written, that error comes back and nothing is read.
    pub fn call(&mut self, _method_name: &str, payload: Vec<u8>) -> (r: Result<Vec<u8>, IpcError>)
        ensures
            r is Ok ==> final(self).writer().sink() == old(self).writer().sink() + request_frame(
                payload@,
            ),
            final(self).reader() == old(self).reader() || final(self).writer().sink() == old(
                self,
            ).writer().sink() + request_frame(payload@),
            ({
                let s = old(self).reader().unread();
                let fits = match old(self).writer().space() {
                    Some(k) => request_frame(payload@).len() <= k,
                    None => true,
                };
                old(self).writer().writes_never_fail() ==> {
                    &&& !fits ==> {
                        &&& r == Err::<Vec<u8>, IpcError>(IpcError::SliceWriteError)
                        &&& final(self).reader() == old(self).reader()
                    }
                    &&& fits ==> final(self).writer().sink() == old(self).writer().sink()
                        + request_frame(payload@)
                    &&& (fits && old(self).reader().is_modeled()) ==> {
                        &&& final(self).reader().is_modeled()
                        &&& (r is Ok <==> response_outcome(s) is Ok)
                        &&& (r is Ok ==> r->Ok_0@ == response_outcome(s)->Ok_0)
                        &&& (r is Err ==> r->Err_0 == response_outcome(s)->Err_0)
                        &&& (response_parsed(s) is Ok ==> final(self).reader().unread() == s.skip(
                            response_parsed(s)->Ok_0.2 as int,
                        ))
                    }
                }
            }),
    {
        self.send_request(payload)?;
        self.receive_response()
    }

    /// Answers one request with what the handler made of it: a response frame
    /// with error code zero and its payload on success; for a
    /// `DeserializeError`, a frame with that protocol code and no payload;
    /// any other error is handed back and nothing is written.
    ///
    /// `Ok(false)` means the peer closed its end before the frame was written.
    pub fn respond(&mut self, outcome: Result<Vec<u8>, IpcError>) -> (r: Result<bool, IpcError>)
        ensures
            final(self).reader() == old(self).reader(),
            respond_step(outcome_view(outcome), old(self).writer(), final(self).writer(), r),
    {
        let (code, resp) = match outcome {
            Ok(resp) => (0u64, resp),
            Err(e) => match reply_code(&e) {
                Some(c) => (c, Vec::new()),
                None => {
                    return Err(e);
                },
            },
        };
        match self.send_response(code, resp) {
            Ok(()) => Ok(true),
            Err(IpcError::CkbSysError(se)) => {
                if peer_closed(&se) {
                    Ok(false)
                } else {
                    Err(IpcError::CkbSysError(se))
                }
            },
            Err(e) => Err(e),
        }
    }

    /// Serves one request: reads a request frame, hands its payload to
    /// `serve` and writes `respond`'s frame for what came back.
    ///
    /// `Ok(false)` means the conversation is over: the source ended at a frame
    /// boundary, or the peer closed its end before the response was written.
    pub fn serve_one<S: Serve>(&mut self, serve: &mut S) -> (r: Result<bool, IpcError>)
        ensures
            ({
                let s = old(self).reader().unread();
                let w = old(self).writer();
                &&& r == Ok::<bool, IpcError>(true) ==> exists|out: Result<Seq<u8>, IpcError>|
                    respond_step(out, w, final(self).writer(), r)
                &&& old(self).reader().is_modeled() ==> {
                    &&& final(self).reader().is_modeled()
                    &&& (s.len() == 0 ==> {
                        &&& r == Ok::<bool, IpcError>(false)
                        &&& final(self).reader().unread() == s
                        &&& final(self).writer() == w
                    })
                    &&& (s.len() > 0 && request_parsed(s) is Err ==> {
                        &&& r == Err::<bool, IpcError>(request_parsed(s)->Err_0)
                        &&& final(self).writer() == w
                    })
                    &&& (s.len() > 0 && request_parsed(s) is Ok ==> {
                        &&& final(self).reader().unread() == s.skip(
                            request_parsed(s)->Ok_0.1 as int,
                        )
                        &&& final(self).reader().unread().len() < s.len()
                        &&& exists|out: Result<Seq<u8>, IpcError>|
                            {
                                &&& S::answers(request_parsed(s)->Ok_0.0, out)
                                &&& respond_step(out, w, final(self).writer(), r)
                            }
                    })
                }
            }),
    {
        let ghost s = self.reader.unread();
        let packet = match RequestPacket::read_or_end(&mut self.reader)? {
            None => {
                return Ok(false);
            },
            Some(p) => p,
        };
        proof {
            if old(self).reader().is_modeled() {
                lemma_request_parsed_len(s);
            }
        }
        let outcome = serve.serve(packet.into_payload());
        let ghost given = outcome_view(outcome);
        let r = self.respond(outcome);
        proof {
            assert(respond_step(given, old(self).writer(), self.writer(), r));
        }
        r
    }

    /// Runs the server loop over an in-memory source: serves requests one
    /// after another until the source ends at a frame boundary, which is no
    /// error, or something fails, which is returned. A source that ends in
    /// the middle of a frame gives that frame's read error.
    ///
    /// A host pipe has no end known in advance, so a server on pipes calls
    /// `serve_one` until it returns `Ok(false)` or an error.
    pub fn execute<S: Serve>(&mut self, serve: &mut S) -> (r: Result<(), IpcError>)
        requires
            old(self).reader().is_modeled(),
        ensures
            final(self).reader().is_modeled(),
            exists|reqs: Seq<Seq<u8>>, outs: Seq<Result<Seq<u8>, IpcError>>|
                served_run::<S, W>(
                    old(self).reader().unread(),
                    old(self).writer(),
                    final(self).reader().unread(),
                    final(self).writer(),
                    reqs,
                    outs,
                    r,
                ),
    {
        let ghost s = self.reader.unread();
        let ghost w0 = self.writer;
        let ghost reliable = w0.writes_never_fail() && w0.space() is None;
        let ghost mut reqs: Seq<Seq<u8>> = Seq::empty();
        let ghost mut outs: Seq<Result<Seq<u8>, IpcError>> = Seq::empty();
        proof {
            assert(s.skip(0) =~= s);
            assert(w0.sink() + reply_frames(outs) =~= w0.sink());
        }
        loop
            invariant
                s == old(self).reader().unread(),
                w0 == old(self).writer(),
                reliable == (w0.writes_never_fail() && w0.space() is None),
                self.reader.is_modeled(),
                reqs.len() == outs.len(),
                forall|i: int| 0 <= i < reqs.len() ==> S::answers(#[trigger] reqs[i], outs[i]),
                self.reader.unread().len() <= s.len(),
                parses_as(s, reqs) == Some((s.len() - self.reader.unread().len()) as nat),
                self.reader.unread() == s.skip(s.len() - self.reader.unread().len()),
                forall|i: int| 0 <= i < outs.len() ==> #[trigger] reply_frame(outs[i]) is Some,
                reliable ==> {
                    &&& self.writer.writes_never_fail()
                    &&& self.writer.space() is None
                    &&& self.writer.sink() == w0.sink() + reply_frames(outs)
                },
            decreases self.reader.unread().len(),
        {
            let ghost cur = self.reader.unread();
            let ghost wb = self.writer;
            let ghost m = (s.len() - cur.len()) as nat;
            let step = self.serve_one(serve);
            let ghost before_reqs = reqs;
            let ghost before_outs = outs;
            proof {
                if cur.len() > 0 && request_parsed(cur) is Ok {
                    let p = request_parsed(cur)->Ok_0.0;
                    let n = request_parsed(cur)->Ok_0.1;
                    let out = choose|out: Result<Seq<u8>, IpcError>|
                        {
                            &&& S::answers(p, out)
                            &&& respond_step(out, wb, self.writer, step)
                        };
                    reqs = reqs.push(p);
                    outs = outs.push(out);
                    assert(reqs.drop_last() =~= before_reqs);
                    assert(outs.drop_last() =~= before_outs);
                    assert(reqs.last() == p);
                    assert(outs.last() == out);
                    assert(cur == s.skip(m as int));
                    assert(parses_as(s, reqs) == Some(m + n));
                    assert(self.reader.unread() =~= s.skip((m + n) as int));
                    assert forall|i: int| 0 <= i < reqs.len() implies S::answers(
                        #[trigger] reqs[i],
                        outs[i],
                    ) by {
                        if i < before_reqs.len() {
                            assert(reqs[i] == before_reqs[i]);
                            assert(outs[i] == before_outs[i]);
                        }
                    }
                    if reliable {
                        if reply_frame(out) is Some {
                            assert(self.writer.sink() == w0.sink() + reply_frames(outs));
                        } else {
                            assert(reply_frames(outs) =~= reply_frames(before_outs));
                        }
                    }
                }
            }
            match step {
                Ok(true) => {
                    proof {
                        assert(forall|i: int|
                            0 <= i < outs.len() ==> #[trigger] reply_frame(outs[i]) is Some) by {
                            assert forall|i: int| 0 <= i < outs.len() implies #[trigger] reply_frame(
                                outs[i],
                            ) is Some by {
                                if i < before_outs.len() {
                                    assert(outs[i] == before_outs[i]);
                                }
                            }
                        }
                    }
                },
                Ok(false) => {
                    proof {
                        if reliable {
                            assert(cur.len() == 0);
                        }
                        assert(served_run::<S, W>(
                            s,
                            w0,
                            self.reader.unread(),
                            self.writer,
                            reqs,
                            outs,
                            Ok(()),
                        ));
                    }
                    return Ok(());
                },
                Err(e) => {
                    proof {
                        if cur.len() > 0 && request_parsed(cur) is Ok {
                            assert(outs.last() == outs[outs.len() - 1]);
                            if reliable {
                                assert(reply_frame(outs.last()) is None);
                            }
                        } else {
                            assert(cur == s.skip(m as int));
                        }
                        assert(served_run::<S, W>(
                            s,
                            w0,
                            self.reader.unread(),
                            self.writer,
                            reqs,
                            outs,
                            Err(e),
                        ));
                    }
                    return Err(e);
                },
            }
        }
    }
}

} // verus!

verus! {

/// The bytes of request frames for `payloads`, one after another.
pub open spec fn request_frames(payloads: Seq<Seq<u8>>) -> Seq<u8>
    decreases payloads.len(),
{
    if payloads.len() == 0 {
        Seq::empty()
    } else {
        request_frame(payloads[0]) + request_frames(payloads.drop_first())
    }
}

/// A peer that stops after whole request frames leaves a stream that ends
/// cleanly; one that stops inside a further frame leaves a stream that ends
/// with that frame's framing error: `IncompleteVlqSeq` inside its length,
/// `UnexpectedEof` inside its payload.
pub proof fn lemma_stream_end(payloads: Seq<Seq<u8>>, last: Seq<u8>, k: nat)
    requires
        forall|i: int| 0 <= i < payloads.len() ==> payloads[i].len() <= u64::MAX,
        last.len() <= u64::MAX,
        0 < k < request_frame(last).len(),
    ensures
        stream_end(request_frames(payloads)) is None,
        stream_end(request_frames(payloads) + request_frame(last).take(k as int)) == Some(
            if k < crate::vlq::vlq_bytes(last.len()).len() {
                IpcError::IncompleteVlqSeq
            } else {
                IpcError::UnexpectedEof
            },
        ),
    decreases payloads.len(),
{
    let cut = request_frame(last).take(k as int);
    crate::packet::lemma_truncated_request(last, k);
    if payloads.len() == 0 {
        assert(request_frames(payloads) + cut =~= cut);
    } else {
        let p = payloads[0];
        let tail = payloads.drop_first();
        let f = request_frame(p);
        lemma_stream_end(tail, last, k);
        let rest = request_frames(tail);
        crate::packet::lemma_request_round_trip(p, rest);
        crate::packet::lemma_request_round_trip(p, rest + cut);
        assert((f + rest).skip(f.len() as int) =~= rest);
        assert(request_frames(payloads) + cut =~= f + (rest + cut));
        assert((f + (rest + cut)).skip(f.len() as int) =~= rest + cut);
        assert(f.len() > 0);
    }
}

} // verus!

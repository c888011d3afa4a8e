use vstd::prelude::*;
use std::collections::VecDeque;

use crate::error::IpcError;

verus! {

/// One successful `read` of `n` bytes: the first `n` bytes of what was
/// pending land at the front of the buffer and leave the source; `n` is zero
/// only when the buffer is empty or the source has ended.
pub open spec fn read_step(
    before: Seq<u8>,
    after: Seq<u8>,
    old_buf: Seq<u8>,
    new_buf: Seq<u8>,
    n: nat,
) -> bool {
    &&& n <= old_buf.len()
    &&& n <= before.len()
    &&& new_buf == before.take(n as int) + old_buf.skip(n as int)
    &&& after == before.skip(n as int)
    &&& (n == 0 ==> old_buf.len() == 0 || before.len() == 0)
}

/// A source of bytes.
pub trait Read {
    /// The bytes this source will still yield, in order; it describes the
    /// source where `is_modeled` holds.
    spec fn unread(&self) -> Seq<u8>;

    /// Whether `unread` describes this source and reads never fail: true of
    /// in-memory sources, false of a host pipe, whose bytes come from
    /// another process.
    spec fn is_modeled(&self) -> bool;

    /// Reads some bytes into the front of `buf` and says how many.
    fn read(&mut self, buf: &mut [u8]) -> (r: Result<usize, IpcError>)
        ensures
            final(buf)@.len() == old(buf)@.len(),
            r is Ok ==> r->Ok_0 <= old(buf)@.len(),
            old(self).is_modeled() ==> {
                &&& final(self).is_modeled()
                &&& r is Ok
                &&& r->Ok_0 == (if old(buf)@.len() < old(self).unread().len() {
                    old(buf)@.len()
                } else {
                    old(self).unread().len()
                })
                &&& read_step(
                    old(self).unread(),
                    final(self).unread(),
                    old(buf)@,
                    final(buf)@,
                    r->Ok_0 as nat,
                )
            },
    ;
}

/// One successful `write` of `n` bytes: the first `n` bytes of `data` are
/// appended to the sink, as many as there is room for.
pub open spec fn write_step(
    before: Seq<u8>,
    after: Seq<u8>,
    old_space: Option<nat>,
    new_space: Option<nat>,
    data: Seq<u8>,
    n: nat,
) -> bool {
    &&& n <= data.len()
    &&& after == before + data.take(n as int)
    &&& match old_space {
        Some(k) => n <= k && new_space == Some((k - n) as nat),
        None => new_space is None,
    }
}

/// A sink of bytes.
pub trait Write {
    /// The bytes the sink has accepted and holds.
    spec fn sink(&self) -> Seq<u8>;

    /// How many more bytes the sink takes; `None` when it grows as needed.
    spec fn space(&self) -> Option<nat>;

    /// Whether writes to this sink never fail (true of in-memory sinks).
    spec fn writes_never_fail(&self) -> bool;

    /// Writes a prefix of `data` and says how long it was.
    fn write(&mut self, data: &[u8]) -> (r: Result<usize, IpcError>)
        ensures
            r is Ok ==> write_step(
                old(self).sink(),
                final(self).sink(),
                old(self).space(),
                final(self).space(),
                data@,
                r->Ok_0 as nat,
            ),
            old(self).writes_never_fail() ==> {
                &&& r is Ok
                &&& final(self).writes_never_fail()
                &&& r->Ok_0 == match old(self).space() {
                    Some(k) => if k < data@.len() { k } else { data@.len() },
                    None => data@.len(),
                }
            },
    ;

    /// Pushes out anything held back.
    fn flush(&mut self) -> (r: Result<(), IpcError>)
        ensures
            r is Ok ==> final(self).sink() == old(self).sink() && final(self).space() == old(
                self,
            ).space(),
            old(self).writes_never_fail() ==> r is Ok && final(self).writes_never_fail(),
    ;
}

/// A source of bytes with a buffer the caller can look into.
pub trait BufRead {
    /// The bytes this source will still yield, in order.
    spec fn pending(&self) -> Seq<u8>;

    /// How many bytes the last `fill_buf` showed that are not consumed yet.
    spec fn buffered(&self) -> nat;

    /// Whether filling the buffer never fails (true of in-memory sources).
    spec fn fills_never_fail(&self) -> bool;

    /// Shows the next bytes without consuming them; empty only when the source
    /// has ended.
    fn fill_buf(&mut self) -> (r: Result<&[u8], IpcError>)
        ensures
            final(self).pending() == old(self).pending(),
            r is Ok ==> {
                &&& r->Ok_0@.len() <= old(self).pending().len()
                &&& r->Ok_0@ == old(self).pending().take(r->Ok_0@.len() as int)
                &&& (r->Ok_0@.len() == 0 ==> old(self).pending().len() == 0)
                &&& final(self).buffered() == r->Ok_0@.len()
            },
            old(self).fills_never_fail() ==> r is Ok && final(self).fills_never_fail(),
    ;

    /// Marks the first `amt` shown bytes as read.
    fn consume(&mut self, amt: usize)
        requires
            amt <= old(self).buffered(),
        ensures
            final(self).pending() == old(self).pending().skip(amt as int),
            final(self).buffered() == old(self).buffered() - amt,
            old(self).fills_never_fail() ==> final(self).fills_never_fail(),
    ;
}

/// A way to move within a stream.
pub enum SeekFrom {
    Start(u64),
    End(i64),
    Current(i64),
}

/// A stream with a position that can be moved.
pub trait Seek {
    /// Moves to `pos` and says where that is, from the start.
    fn seek(&mut self, pos: SeekFrom) -> (r: Result<u64, IpcError>);

    /// Where the stream stands, from the start.
    fn stream_position(&mut self) -> (r: Result<u64, IpcError>) {
        self.seek(SeekFrom::Current(0))
    }
}

/// How many bytes of `s` a read up to `delim` takes: through the first
/// `delim`, or all of `s` when there is none.
pub open spec fn until_delim(s: Seq<u8>, delim: u8) -> nat {
    if exists|i: int| 0 <= i < s.len() && s[i] == delim {
        let i = choose|i: int| 0 <= i < s.len() && s[i] == delim && forall|j: int| 0 <= j < i ==> s[j] != delim;
        (i + 1) as nat
    } else {
        s.len()
    }
}

proof fn lemma_first_delim(s: Seq<u8>, delim: u8, i: int)
    requires
        0 <= i < s.len(),
        s[i] == delim,
        forall|j: int| 0 <= j < i ==> s[j] != delim,
    ensures
        until_delim(s, delim) == i + 1,
{
    let k = choose|k: int| 0 <= k < s.len() && s[k] == delim && forall|j: int| 0 <= j < k ==> s[j] != delim;
    if k < i {
        assert(s[k] != delim);
    } else if i < k {
        assert(s[i] != delim);
    }
}

/// Appends to `out` the bytes of `reader` up to and including the first
/// `delim`, or up to the end of the source, and says how many.
pub fn read_until<B: BufRead>(reader: &mut B, delim: u8, out: &mut Vec<u8>) -> (r: Result<
    usize,
    IpcError,
>)
    ensures
        ({
            let s = old(reader).pending();
            let n = until_delim(s, delim);
            &&& r is Ok ==> {
                &&& r->Ok_0 == n
                &&& final(out)@ == old(out)@ + s.take(n as int)
                &&& final(reader).pending() == s.skip(n as int)
            }
            &&& old(reader).fills_never_fail() ==> r is Ok && final(reader).fills_never_fail()
        }),
{
    let ghost s = reader.pending();
    let mut total: usize = 0;
    loop
        invariant
            s == old(reader).pending(),
            total <= s.len(),
            forall|j: int| 0 <= j < total ==> s[j] != delim,
            out@ == old(out)@ + s.take(total as int),
            reader.pending() == s.skip(total as int),
            old(reader).fills_never_fail() ==> reader.fills_never_fail(),
        decreases s.len() - total,
    {
        let ghost at = reader.pending();
        let ghost mut shown: Seq<u8> = Seq::empty();
        let (found, used) = {
            let available = reader.fill_buf()?;
            proof {
                shown = available@;
            }
            let mut i: usize = 0;
            let mut found = false;
            while i < available.len() && !found
                invariant
                    i <= available@.len(),
                    available@ == at.take(available@.len() as int),
                    found ==> i >= 1 && available@[i - 1] == delim,
                    forall|j: int| 0 <= j < i && !(found && j == i - 1) ==> available@[j] != delim,
                    out@ == old(out)@ + s.take(total as int) + available@.take(i as int),
                decreases available@.len() - i + (if found { 0int } else { 1int }),
            {
                let b = available[i];
                out.push(b);
                assert(available@.take(i + 1) =~= available@.take(i as int).push(b));
                if b == delim {
                    found = true;
                }
                i = i + 1;
            }
            assert(found ==> available@[i - 1] == delim);
            (found, i)
        };
        assert(used <= shown.len() && shown == at.take(shown.len() as int));
        assert(forall|j: int| 0 <= j < used && !(found && j == used - 1) ==> shown[j] != delim);
        assert(found ==> used >= 1 && shown[used - 1] == delim);
        assert(out@ == old(out)@ + s.take(total as int) + shown.take(used as int));
        reader.consume(used);
        let out_len = out.len();
        proof {
            assert(out@ =~= old(out)@ + s.take(total + used));
            assert(reader.pending() =~= s.skip(total + used));
        }
        let ghost prev = total;
        proof {
            assert forall|j: int| 0 <= j < total + used && !(found && j == total + used - 1)
                implies s[j] != delim by {
                if j >= total {
                    assert(s[j] == at[j - total]);
                    assert(shown[j - total] == at[j - total]);
                }
            }
            if found {
                assert(s[total + used - 1] == shown[used - 1]);
            }
        }
        total = total + used;
        if found {
            proof {
                lemma_first_delim(s, delim, total - 1);
            }
            return Ok(total);
        }
        if used == 0 {
            proof {
                assert(s.skip(prev as int).len() == 0);
                assert forall|i: int| 0 <= i < s.len() implies s[i] != delim by {}
            }
            return Ok(total);
        }
    }
}

/// Fills `buf` completely from `reader`.
///
/// Fails with `UnexpectedEof` when the source ends first.
pub fn read_exact<R: Read>(reader: &mut R, buf: &mut [u8]) -> (r: Result<(), IpcError>)
    ensures
        final(buf)@.len() == old(buf)@.len(),
        old(reader).is_modeled() ==> {
            &&& final(reader).is_modeled()
            &&& (r is Ok <==> old(reader).unread().len() >= old(buf)@.len())
            &&& (r is Ok ==> {
                &&& final(buf)@ == old(reader).unread().take(old(buf)@.len() as int)
                &&& final(reader).unread() == old(reader).unread().skip(old(buf)@.len() as int)
            })
            &&& (r is Err ==> r == Err::<(), IpcError>(IpcError::UnexpectedEof))
        },
{
    let ghost m = reader.is_modeled();
    let len = buf.len();
    let mut filled: usize = 0;
    let mut chunk: Vec<u8> = Vec::new();
    while filled < len
        invariant
            m == old(reader).is_modeled(),
            filled <= len == buf@.len() == old(buf)@.len(),
            m ==> {
                &&& reader.is_modeled()
                &&& filled <= old(reader).unread().len()
                &&& buf@.take(filled as int) == old(reader).unread().take(filled as int)
                &&& reader.unread() == old(reader).unread().skip(filled as int)
            },
        decreases len - filled,
    {
        chunk.clear();
        let want = len - filled;
        let mut k: usize = 0;
        while k < want
            invariant
                k <= want,
                chunk@.len() == k,
            decreases want - k,
        {
            chunk.push(0u8);
            k = k + 1;
        }
        let ghost before = reader.unread();
        let n = match reader.read(chunk.as_mut_slice()) {
            Ok(n) => n,
            Err(e) => {
                return Err(e);
            },
        };
        if n == 0 {
            return Err(IpcError::UnexpectedEof);
        }
        let ghost prefix = buf@.take(filled as int);
        let mut i: usize = 0;
        while i < n
            invariant
                i <= n <= chunk@.len() == want == len - filled,
                buf@.len() == len,
                filled + n <= len,
                buf@.take(filled as int) == prefix,
                forall|j: int| 0 <= j < i ==> buf@[filled + j] == chunk@[j],
            decreases n - i,
        {
            buf[filled + i] = chunk[i];
            i = i + 1;
        }
        proof {
            if m {
                assert(chunk@.take(n as int) == before.take(n as int));
                assert(buf@.take((filled + n) as int) =~= prefix + before.take(n as int));
                assert(old(reader).unread().take((filled + n) as int) =~= old(
                    reader,
                ).unread().take(filled as int) + before.take(n as int));
                assert(reader.unread() =~= old(reader).unread().skip((filled + n) as int));
            }
        }
        filled = filled + n;
    }
    proof {
        assert(buf@ =~= buf@.take(len as int));
    }
    Ok(())
}

/// Writes the whole of `data` to `writer`.
///
/// Fails with `SliceWriteError` when the sink stops taking bytes first; a sink
/// whose writes never fail fails exactly when it has too little room.
pub fn write_all<W: Write>(writer: &mut W, data: &[u8]) -> (r: Result<(), IpcError>)
    ensures
        r is Ok ==> {
            &&& final(writer).sink() == old(writer).sink() + data@
            &&& final(writer).space() == match old(writer).space() {
                Some(k) => Some((k - data@.len()) as nat),
                None => None,
            }
        },
        old(writer).writes_never_fail() ==> {
            &&& final(writer).writes_never_fail()
            &&& (r is Ok <==> match old(writer).space() {
                Some(k) => data@.len() <= k,
                None => true,
            })
            &&& (r is Err ==> r == Err::<(), IpcError>(IpcError::SliceWriteError))
        },
{
    let mut done: usize = 0;
    while done < data.len()
        invariant
            done <= data@.len(),
            writer.sink() == old(writer).sink() + data@.take(done as int),
            writer.space() == match old(writer).space() {
                Some(k) => Some((k - done) as nat),
                None => None,
            },
            old(writer).space() matches Some(k) ==> done <= k,
            old(writer).writes_never_fail() ==> writer.writes_never_fail(),
        decreases data@.len() - done,
    {
        let (_, rest) = data.split_at(done);
        let n = match writer.write(rest) {
            Ok(n) => n,
            Err(e) => {
                return Err(e);
            },
        };
        if n == 0 {
            return Err(IpcError::SliceWriteError);
        }
        proof {
            assert(data@.take((done + n) as int) =~= data@.take(done as int) + rest@.take(
                n as int,
            ));
        }
        done = done + n;
    }
    proof {
        assert(data@.take(done as int) =~= data@);
    }
    Ok(())
}

/// A boxed reader reads from what it holds.
impl<R: Read> Read for Box<R> {
    open spec fn unread(&self) -> Seq<u8> {
        (**self).unread()
    }

    open spec fn is_modeled(&self) -> bool {
        (**self).is_modeled()
    }

    fn read(&mut self, buf: &mut [u8]) -> (r: Result<usize, IpcError>) {
        (**self).read(buf)
    }
}

/// A boxed writer writes to what it holds.
impl<W: Write> Write for Box<W> {
    open spec fn sink(&self) -> Seq<u8> {
        (**self).sink()
    }

    open spec fn space(&self) -> Option<nat> {
        (**self).space()
    }

    open spec fn writes_never_fail(&self) -> bool {
        (**self).writes_never_fail()
    }

    fn write(&mut self, data: &[u8]) -> (r: Result<usize, IpcError>) {
        (**self).write(data)
    }

    fn flush(&mut self) -> (r: Result<(), IpcError>) {
        (**self).flush()
    }
}

/// A boxed stream moves what it holds.
impl<S: Seek> Seek for Box<S> {
    fn seek(&mut self, pos: SeekFrom) -> (r: Result<u64, IpcError>) {
        (**self).seek(pos)
    }

    fn stream_position(&mut self) -> (r: Result<u64, IpcError>) {
        (**self).stream_position()
    }
}

/// A boxed buffered reader reads from what it holds.
impl<B: BufRead> BufRead for Box<B> {
    open spec fn pending(&self) -> Seq<u8> {
        (**self).pending()
    }

    open spec fn buffered(&self) -> nat {
        (**self).buffered()
    }

    open spec fn fills_never_fail(&self) -> bool {
        (**self).fills_never_fail()
    }

    fn fill_buf(&mut self) -> (r: Result<&[u8], IpcError>) {
        (**self).fill_buf()
    }

    fn consume(&mut self, amt: usize) {
        (**self).consume(amt)
    }
}

/// Copies the first `n` bytes of `src` to the front of `dst`.
fn copy_prefix(dst: &mut [u8], src: &[u8], n: usize)
    requires
        n <= old(dst)@.len(),
        n <= src@.len(),
    ensures
        final(dst)@ == src@.take(n as int) + old(dst)@.skip(n as int),
{
    let mut i: usize = 0;
    while i < n
        invariant
            i <= n <= dst@.len() == old(dst)@.len(),
            n <= src@.len(),
            forall|j: int| 0 <= j < i ==> dst@[j] == src@[j],
            forall|j: int| i <= j < dst@.len() ==> dst@[j] == old(dst)@[j],
        decreases n - i,
    {
        dst[i] = src[i];
        i = i + 1;
    }
    assert(dst@ =~= src@.take(n as int) + old(dst)@.skip(n as int));
}

/// Reading a byte slice copies from its front and advances it past what was read.
impl<'a> Read for &'a [u8] {
    open spec fn unread(&self) -> Seq<u8> {
        (*self)@
    }

    open spec fn is_modeled(&self) -> bool {
        true
    }

    fn read(&mut self, buf: &mut [u8]) -> (r: Result<usize, IpcError>) {
        let amt: usize = if buf.len() < self.len() {
            buf.len()
        } else {
            self.len()
        };
        let (a, b) = (*self).split_at(amt);
        copy_prefix(buf, a, amt);
        *self = b;
        proof {
            assert(a@.take(amt as int) =~= old(self)@.take(amt as int));
            assert(b@ =~= old(self)@.skip(amt as int));
        }
        Ok(amt)
    }
}

/// A byte slice shows all of itself as its buffer.
impl<'a> BufRead for &'a [u8] {
    open spec fn pending(&self) -> Seq<u8> {
        (*self)@
    }

    open spec fn buffered(&self) -> nat {
        (*self)@.len()
    }

    open spec fn fills_never_fail(&self) -> bool {
        true
    }

    fn fill_buf(&mut self) -> (r: Result<&[u8], IpcError>) {
        Ok(*self)
    }

    fn consume(&mut self, amt: usize) {
        let (_, rest) = (*self).split_at(amt);
        *self = rest;
    }
}

/// Reading a deque takes bytes from its front.
impl Read for VecDeque<u8> {
    open spec fn unread(&self) -> Seq<u8> {
        self@
    }

    open spec fn is_modeled(&self) -> bool {
        true
    }

    fn read(&mut self, buf: &mut [u8]) -> (r: Result<usize, IpcError>) {
        let amt: usize = if buf.len() < self.len() {
            buf.len()
        } else {
            self.len()
        };
        let mut i: usize = 0;
        while i < amt
            invariant
                i <= amt <= buf@.len() == old(buf)@.len(),
                amt <= old(self)@.len(),
                self@ == old(self)@.skip(i as int),
                forall|j: int| 0 <= j < i ==> buf@[j] == old(self)@[j],
                forall|j: int| i <= j < buf@.len() ==> buf@[j] == old(buf)@[j],
            decreases amt - i,
        {
            let ghost before = self@;
            let b = self.pop_front().unwrap();
            buf[i] = b;
            proof {
                assert(self@ =~= old(self)@.skip(i + 1));
            }
            i = i + 1;
        }
        assert(buf@ =~= old(self)@.take(amt as int) + old(buf)@.skip(amt as int));
        Ok(amt)
    }
}

/// Writing to a vector appends; it grows as needed.
impl Write for Vec<u8> {
    open spec fn sink(&self) -> Seq<u8> {
        self@
    }

    open spec fn space(&self) -> Option<nat> {
        None
    }

    open spec fn writes_never_fail(&self) -> bool {
        true
    }

    fn write(&mut self, data: &[u8]) -> (r: Result<usize, IpcError>) {
        let mut i: usize = 0;
        while i < data.len()
            invariant
                i <= data@.len(),
                self@ == old(self)@ + data@.take(i as int),
            decreases data@.len() - i,
        {
            self.push(data[i]);
            assert(data@.take(i + 1) =~= data@.take(i as int).push(data@[i as int]));
            i = i + 1;
        }
        assert(data@.take(i as int) =~= data@);
        Ok(data.len())
    }

    fn flush(&mut self) -> (r: Result<(), IpcError>) {
        Ok(())
    }
}

/// Writing to a deque appends at its back; it grows as needed.
impl Write for VecDeque<u8> {
    open spec fn sink(&self) -> Seq<u8> {
        self@
    }

    open spec fn space(&self) -> Option<nat> {
        None
    }

    open spec fn writes_never_fail(&self) -> bool {
        true
    }

    fn write(&mut self, data: &[u8]) -> (r: Result<usize, IpcError>) {
        let mut i: usize = 0;
        while i < data.len()
            invariant
                i <= data@.len(),
                self@ == old(self)@ + data@.take(i as int),
            decreases data@.len() - i,
        {
            self.push_back(data[i]);
            assert(data@.take(i + 1) =~= data@.take(i as int).push(data@[i as int]));
            i = i + 1;
        }
        assert(data@.take(i as int) =~= data@);
        Ok(data.len())
    }

    fn flush(&mut self) -> (r: Result<(), IpcError>) {
        Ok(())
    }
}

/// A sink of fixed capacity: writes beyond it come back short.
pub struct FixedBuffer {
    bytes: Vec<u8>,
    capacity: usize,
}

impl FixedBuffer {
    /// An empty buffer that takes at most `capacity` bytes.
    pub fn new(capacity: usize) -> (r: Self)
        ensures
            r.sink() == Seq::<u8>::empty(),
            r.space() == Some(capacity as nat),
    {
        FixedBuffer { bytes: Vec::new(), capacity }
    }

    /// A fixed buffer always has a bound.
    pub proof fn lemma_bounded(&self)
        ensures
            self.space() is Some,
    {
    }

    /// The bytes written so far.
    pub fn as_slice(&self) -> (r: &[u8])
        ensures
            r@ == self.sink(),
    {
        self.bytes.as_slice()
    }
}

impl Write for FixedBuffer {
    closed spec fn sink(&self) -> Seq<u8> {
        self.bytes@
    }

    closed spec fn space(&self) -> Option<nat> {
        if self.bytes@.len() <= self.capacity {
            Some((self.capacity - self.bytes@.len()) as nat)
        } else {
            Some(0)
        }
    }

    open spec fn writes_never_fail(&self) -> bool {
        true
    }

    fn write(&mut self, data: &[u8]) -> (r: Result<usize, IpcError>) {
        let room: usize = if self.bytes.len() <= self.capacity {
            self.capacity - self.bytes.len()
        } else {
            0
        };
        let amt: usize = if data.len() < room {
            data.len()
        } else {
            room
        };
        let mut i: usize = 0;
        while i < amt
            invariant
                i <= amt <= data@.len(),
                amt <= room,
                room == if old(self).bytes@.len() <= old(self).capacity {
                    old(self).capacity - old(self).bytes@.len()
                } else {
                    0
                },
                self.capacity == old(self).capacity,
                self.bytes@ == old(self).bytes@ + data@.take(i as int),
            decreases amt - i,
        {
            self.bytes.push(data[i]);
            assert(data@.take(i + 1) =~= data@.take(i as int).push(data@[i as int]));
            i = i + 1;
        }
        Ok(amt)
    }

    fn flush(&mut self) -> (r: Result<(), IpcError>) {
        Ok(())
    }
}

} // verus!

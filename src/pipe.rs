use vstd::prelude::*;

use crate::error::IpcError;
use crate::io::{Read, Write};

verus! {

/// Relies on `ckb_std::syscalls::read`: reads at most `buf.len()` bytes from
/// the pipe `fd` into the front of `buf` and says how many.
#[verifier::external_body]
fn pipe_read(fd: u64, buf: &mut [u8]) -> (r: Result<usize, ckb_std::error::SysError>)
    ensures
        final(buf)@.len() == old(buf)@.len(),
        r is Ok ==> r->Ok_0 <= old(buf)@.len(),
{
    ckb_std::syscalls::read(fd, buf)
}

/// Relies on `ckb_std::syscalls::write`: writes at most `data.len()` bytes
/// from the front of `data` to the pipe `fd` and says how many.
#[verifier::external_body]
fn pipe_write(fd: u64, data: &[u8]) -> (r: Result<usize, ckb_std::error::SysError>)
    ensures
        r is Ok ==> r->Ok_0 <= data@.len(),
{
    ckb_std::syscalls::write(fd, data)
}

/// Relies on `SysError`'s variants: whether the error says that the other
/// end of the pipe is closed.
#[verifier::external_body]
pub(crate) fn peer_closed(e: &ckb_std::error::SysError) -> (r: bool) {
    matches!(e, ckb_std::error::SysError::OtherEndClosed)
}

/// One end of a host pipe, named by its file descriptor. What it will read is
/// not known here; what it has written is.
pub struct Pipe {
    fd: u64,
    sent: Ghost<Seq<u8>>,
}

impl Pipe {
    pub closed spec fn spec_fd(&self) -> u64 {
        self.fd
    }

    pub fn new(fd: u64) -> (r: Self)
        ensures
            r.spec_fd() == fd,
            r.sink() == Seq::<u8>::empty(),
    {
        Pipe { fd, sent: Ghost(Seq::empty()) }
    }

    pub fn fd(&self) -> (r: u64)
        ensures
            r == self.spec_fd(),
    {
        self.fd
    }
}

/// A pipe whose other end has closed has ended: that is no error.
impl Read for Pipe {
    closed spec fn unread(&self) -> Seq<u8> {
        Seq::empty()
    }

    open spec fn is_modeled(&self) -> bool {
        false
    }

    fn read(&mut self, buf: &mut [u8]) -> (r: Result<usize, IpcError>) {
        match pipe_read(self.fd, buf) {
            Ok(n) => Ok(n),
            Err(e) => {
                if peer_closed(&e) {
                    Ok(0)
                } else {
                    Err(IpcError::CkbSysError(e))
                }
            },
        }
    }
}

impl Write for Pipe {
    closed spec fn sink(&self) -> Seq<u8> {
        self.sent@
    }

    open spec fn space(&self) -> Option<nat> {
        None
    }

    open spec fn writes_never_fail(&self) -> bool {
        false
    }

    fn write(&mut self, data: &[u8]) -> (r: Result<usize, IpcError>) {
        match pipe_write(self.fd, data) {
            Ok(n) => {
                self.sent = Ghost(self.sent@ + data@.take(n as int));
                Ok(n)
            },
            Err(e) => Err(IpcError::CkbSysError(e)),
        }
    }

    fn flush(&mut self) -> (r: Result<(), IpcError>) {
        Ok(())
    }
}

} // verus!

use vstd::prelude::*;

verus! {

/// The host's syscall error, carried through unchanged when a transport fails.
#[verifier::external_type_specification]
#[verifier::external_body]
pub struct ExSysError(ckb_std::error::SysError);

/// Every failure the channel can report.
#[derive(Debug, PartialEq, Eq)]
pub enum IpcError {
    CkbSysError(ckb_std::error::SysError),
    UnexpectedEof,
    IncompleteVlqSeq,
    DecodeVlqOverflow,
    ReadVlqError,
    SerializeError,
    DeserializeError,
    SliceWriteError,
    ReadUntilError,
    ReadExactError,
    BufReaderError,
    /// A response frame arrived with this non-zero error code.
    ProtocolError(u64),
}

/// Reserved codes carried in the error-code field of a response frame.
pub enum ProtocolErrorCode {
    DeserializeError,
    OtherEndClosed,
}

impl ProtocolErrorCode {
    pub open spec fn spec_code(&self) -> u64 {
        match self {
            ProtocolErrorCode::DeserializeError => 1,
            ProtocolErrorCode::OtherEndClosed => 2,
        }
    }

    /// The wire value of the code; never zero, which means success.
    pub fn code(&self) -> (r: u64)
        ensures
            r == self.spec_code(),
            r != 0,
    {
        match self {
            ProtocolErrorCode::DeserializeError => 1,
            ProtocolErrorCode::OtherEndClosed => 2,
        }
    }
}

} // verus!

use vstd::prelude::*;

use crate::error::IpcError;

verus! {

/// A serialized outcome: the response payload, or the handler's error.
pub open spec fn outcome_view(r: Result<Vec<u8>, IpcError>) -> Result<Seq<u8>, IpcError> {
    match r {
        Ok(v) => Ok(v@),
        Err(e) => Err(e),
    }
}

/// A handler that turns one serialized request into one serialized response.
///
/// A request that cannot be decoded is answered by returning
/// `IpcError::DeserializeError`; any other error stops the server loop.
pub trait Serve {
    /// Whether `out` is an answer the handler may give to `req`. A handler
    /// that says nothing of its answers keeps the default, which allows any.
    open spec fn answers(req: Seq<u8>, out: Result<Seq<u8>, IpcError>) -> bool {
        true
    }

    /// Responds to a single request.
    fn serve(&mut self, req: Vec<u8>) -> (r: Result<Vec<u8>, IpcError>)
        ensures
            Self::answers(req@, outcome_view(r)),
    ;

    /// The name of the method a request calls, where the handler knows it;
    /// used for diagnostics only.
    fn method(&self, req: &[u8]) -> (r: Option<&'static str>) {
        None
    }
}

} // verus!

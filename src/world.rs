use vstd::prelude::*;
use vstd::string::StringExecFns;

verus! {

/// Why the example script failed.
pub enum Error {
    Unknown,
    CkbSysError(ckb_std::error::SysError),
    ServerError,
}

/// The exit code of the example script for the outcome of its entry: zero
/// on success, one for a syscall failure, a hundred for anything else.
pub open spec fn spec_exit_code(outcome: Result<(), Error>) -> i8 {
    match outcome {
        Ok(()) => 0,
        Err(Error::CkbSysError(_)) => 1,
        Err(_) => 100,
    }
}

pub fn program_entry(outcome: Result<(), Error>) -> (r: i8)
    ensures
        r == spec_exit_code(outcome),
{
    match outcome {
        Ok(_) => 0,
        Err(e) => match e {
            Error::CkbSysError(_) => 1,
            _ => 100,
        },
    }
}

/// The text "hello, " followed by the name.
fn greeting(name: &str) -> (r: String)
    ensures
        r@ == "hello, "@ + name@,
{
    "hello, ".to_owned().concat(name)
}

/// The example service's one method: greets a name, and answers the name
/// "error" with the application-level failure code 1.
pub fn hello_reply(name: &str) -> (r: Result<String, u64>)
    ensures
        name@ == "error"@ ==> r == Err::<String, u64>(1),
        name@ != "error"@ ==> r is Ok && r->Ok_0@ == "hello, "@ + name@,
        match spec_hello_reply(name@) {
            Ok(g) => r is Ok && r->Ok_0@ == g,
            Err(c) => r == Err::<String, u64>(c),
        },
{
    let refused = "error".to_owned();
    let given = name.to_owned();
    if given == refused {
        Err(1)
    } else {
        Ok(greeting(name))
    }
}

/// What `hello_reply` answers for `name`.
pub open spec fn spec_hello_reply(name: Seq<char>) -> Result<Seq<char>, u64> {
    if name == "error"@ {
        Err(1)
    } else {
        Ok("hello, "@ + name)
    }
}

/// The example interface: a service that greets.
pub trait World {
    /// What the service answers for `name`.
    spec fn hello_spec(&self, name: Seq<char>) -> Result<Seq<char>, u64>;

    fn hello(&self, name: String) -> (r: Result<String, u64>)
        ensures
            match self.hello_spec(name@) {
                Ok(g) => r is Ok && r->Ok_0@ == g,
                Err(c) => r == Err::<String, u64>(c),
            },
    ;
}

/// The example service.
pub struct WorldServer;

impl World for WorldServer {
    open spec fn hello_spec(&self, name: Seq<char>) -> Result<Seq<char>, u64> {
        spec_hello_reply(name)
    }

    fn hello(&self, name: String) -> (r: Result<String, u64>) {
        hello_reply(name.as_str())
    }
}

} // verus!

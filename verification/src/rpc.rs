//! The RPC handler interface and the session bookkeeping a server
//! front end builds on.

use vstd::prelude::*;

verus! {

/// One remote procedure: a server-side handler turning a request into
/// a response. The argument and response types are chosen when the
/// serving stub is constructed; implementations belong to the user of
/// the library.
pub trait RpcHandler {
    type Args;

    type Resp;

    fn handle(&self, arg: Self::Args) -> Self::Resp;
}

/// Bookkeeping for the sessions a server is carrying; each accepted
/// bootstrap connection adds one.
pub struct SessionManager {

}

} // verus!

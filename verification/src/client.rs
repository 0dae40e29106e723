//! The pure half of the network client.
//!
//! The unverified shell opens a TCP connection per operation, writes the
//! encoded request ([`crate::codec::encode_request`]), reads the response
//! frame back, decodes it ([`crate::decode`]), and hands the decoded
//! response here to turn it into the caller's result.
use vstd::prelude::*;

use crate::codec::RespGet;
use crate::codec::RespU;
use crate::codec::Response4Get;
use crate::codec::Response4Remove;
use crate::codec::Response4Set;
use crate::error::Error;

verus! {

/// Interpret the server's response to a `Set` request: the error-message
/// variant becomes a remote error carrying the server's string.
pub fn read_set_response(resp: Response4Set) -> (r: Result<(), Error>)
    ensures
        match resp@ {
            RespU::Okay => r is Ok,
            RespU::Failed(m) => r matches Err(Error::RemoteError(s)) && s@ == m,
        },
{
    match resp {
        Response4Set::Okay => Ok(()),
        Response4Set::Failed(m) => Err(Error::RemoteError(m)),
    }
}

/// Interpret the server's response to a `Get` request.
pub fn read_get_response(resp: Response4Get) -> (r: Result<Option<String>, Error>)
    ensures
        match resp@ {
            RespGet::Okay(None) => r matches Ok(None),
            RespGet::Okay(Some(v)) => r matches Ok(Some(s)) && s@ == v,
            RespGet::Failed(m) => r matches Err(Error::RemoteError(s)) && s@ == m,
        },
{
    match resp {
        Response4Get::Okay(v) => Ok(v),
        Response4Get::Failed(m) => Err(Error::RemoteError(m)),
    }
}

/// Interpret the server's response to a `Remove` request.
pub fn read_remove_response(resp: Response4Remove) -> (r: Result<(), Error>)
    ensures
        match resp@ {
            RespU::Okay => r is Ok,
            RespU::Failed(m) => r matches Err(Error::RemoteError(s)) && s@ == m,
        },
{
    match resp {
        Response4Remove::Okay => Ok(()),
        Response4Remove::Failed(m) => Err(Error::RemoteError(m)),
    }
}

} // verus!

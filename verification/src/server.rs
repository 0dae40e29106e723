//! The pure request-handling core of the request server.
//!
//! The unverified shell accepts TCP connections, reads characters from a
//! connection into a buffer until [`crate::decode::decode_request`]
//! reports a complete frame, and hands the decoded request here together
//! with the shared store.  The handler executes the request against the
//! engine and returns the encoded response frame, which the shell writes
//! back and then closes the connection: one request, one response, per
//! connection.
use vstd::prelude::*;

use crate::codec::Req;
use crate::codec::RespGet;
use crate::codec::RespU;
use crate::codec::Requests;
use crate::codec::Response4Get;
use crate::codec::Response4Remove;
use crate::codec::Response4Set;
use crate::codec::enc_resp_get;
use crate::codec::enc_resp_unit;
use crate::codec::encode_response_get;
use crate::codec::encode_response_remove;
use crate::codec::encode_response_set;
use crate::error::Error;
use crate::error::spec_error_message;
use crate::kvstore::KvStore;

verus! {

/// What one request does to the store contents, and the response frame
/// the server sends back: a `Set` inserts and answers `{"Ok":null}`, a
/// `Get` answers the current value (or `null`), a `Remove` of a live key
/// erases it and answers `{"Ok":null}`, and a `Remove` of an absent key
/// leaves the store unchanged and answers the error message.
pub open spec fn spec_handle(m: Map<Seq<char>, Seq<char>>, r: Req) -> (
    Map<Seq<char>, Seq<char>>,
    Seq<char>,
) {
    match r {
        Req::Put { key, value } => (m.insert(key, value), enc_resp_unit(RespU::Okay)),
        Req::Get { key } => (
            m,
            enc_resp_get(
                if m.contains_key(key) {
                    RespGet::Okay(Some(m[key]))
                } else {
                    RespGet::Okay(None)
                },
            ),
        ),
        Req::Remove { key } => if m.contains_key(key) {
            (m.remove(key), enc_resp_unit(RespU::Okay))
        } else {
            (m, enc_resp_unit(RespU::Failed(spec_error_message(Error::KeyNotFound))))
        },
    }
}

/// Execute one decoded request against the engine and encode the
/// response frame.
pub fn handle_request(store: &mut KvStore, req: Requests) -> (resp: Vec<char>)
    requires
        old(store).wf(),
    ensures
        final(store).wf(),
        final(store)@ == spec_handle(old(store)@, req@).0,
        resp@ == spec_handle(old(store)@, req@).1,
{
    let ghost rv = req@;
    match req {
        Requests::Put { key, value } => {
            match store.set(key, value) {
                Ok(_) => encode_response_set(&Response4Set::Okay),
                Err(e) => {
                    proof {
                        assert(false);
                    }
                    encode_response_set(&Response4Set::Failed(e.message()))
                }
            }
        }
        Requests::Get { key } => {
            match store.get(key) {
                Ok(v) => encode_response_get(&Response4Get::Okay(v)),
                Err(e) => {
                    proof {
                        assert(false);
                    }
                    encode_response_get(&Response4Get::Failed(e.message()))
                }
            }
        }
        Requests::Remove { key } => {
            match store.remove(key) {
                Ok(_) => encode_response_remove(&Response4Remove::Okay),
                Err(e) => {
                    proof {
                        assert(e is KeyNotFound);
                    }
                    encode_response_remove(&Response4Remove::Failed(e.message()))
                }
            }
        }
    }
}

/// A client `set` followed by a client `get` for the same key observes
/// the value just written, whatever the store held before and whichever
/// pool workers serve the two connections: every answer is a function of
/// the store contents alone, and the `set` left the key mapped to the
/// value.
pub proof fn lemma_set_then_get(m: Map<Seq<char>, Seq<char>>, key: Seq<char>, value: Seq<char>)
    ensures
        spec_handle(spec_handle(m, Req::Put { key, value }).0, Req::Get { key }).1 == enc_resp_get(
            RespGet::Okay(Some(value)),
        ),
{
}

} // verus!

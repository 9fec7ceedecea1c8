//! The per-connection pipeline: decode one request, dispatch it, encode one
//! response. One request per connection; failure on one exchange never
//! reaches any other connection.

use vstd::prelude::*;
use crate::codec::{spec_parse_request, spec_encode_response, parse_request};
use crate::http::{Response, StatusCode, hview};
use crate::router::{FileStore, spec_dispatch, dispatch};

verus! {

/// One full exchange against the store. `None` means the request never
/// parsed and the connection is dropped without a reply; a dispatch failure
/// (missing `User-Agent` on `/user-agent`) is answered with an empty
/// `404 Not Found` on this connection only. Every other input is answered by
/// the routing table, encoded byte-exactly.
pub fn handle_bytes(input: &Vec<u8>, store: &mut FileStore) -> (r: Option<Vec<u8>>)
    requires
        old(store).wf(),
    ensures
        final(store).wf(),
        match spec_parse_request(input@) {
            Err(_) => r == None::<Vec<u8>> && final(store).contents() == old(store).contents(),
            Ok(q) => ({
                let (d, st2) = spec_dispatch(q.0, q.1, q.2, q.3, old(store).contents());
                final(store).contents() == st2 && match d {
                    Ok(rv) => match r {
                        Some(out) => out@ == spec_encode_response(rv.0, rv.1, rv.2),
                        None => false,
                    },
                    Err(_) => match r {
                        Some(out) => out@ == spec_encode_response(
                            StatusCode::NotFound404,
                            Seq::empty(),
                            Seq::empty(),
                        ),
                        None => false,
                    },
                }
            }),
        },
{
    let req = match parse_request(input) {
        Ok(q) => q,
        Err(_) => {
            return None;
        },
    };
    let resp = match dispatch(req, store) {
        Ok(resp) => resp,
        Err(_) => {
            let nf = Response::not_found();
            proof {
                assert(hview(nf.headers@) =~= Seq::<(Seq<u8>, Seq<u8>)>::empty());
                assert(nf.body@ =~= Seq::<u8>::empty());
            }
            nf
        },
    };
    Some(resp.encode())
}

} // verus!

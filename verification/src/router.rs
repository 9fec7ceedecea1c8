//! The router: map one decoded request to a response, in fixed precedence
//! order, consulting a byte store keyed by name for the `/files/` routes.
//!
//! The store collaborator is modelled as an in-memory name/contents list with
//! last-wins lookup and overwrite-on-write, the behaviour the routes rely on;
//! the binary backs it with the served directory at its edge.

use vstd::prelude::*;
use crate::bytes::{dec_of, starts_with, has_prefix, bytes_eq, take_range, usize_to_dec};
use crate::http::{
    Method, Request, Response, StatusCode, first_pair_index, hview, pair_lookup, pair_lookup_in,
    spec_upsert, unique_names, upsert_in, lemma_upsert_unique,
};
use crate::tokens::{
    bs_path_root, bs_prefix_echo, bs_path_user_agent, bs_prefix_files, bs_name_content_type,
    bs_name_content_length, bs_name_user_agent, bs_mime_text_plain, bs_mime_octet_stream,
    path_root_vec, prefix_echo_vec, path_user_agent_vec, prefix_files_vec,
    name_content_type_vec, name_content_length_vec, name_user_agent_vec, mime_text_plain_vec,
    mime_octet_stream_vec,
};

verus! {

/// The routing table's decision for a path, in precedence order.
pub enum SpecRoute {
    Root,
    Echo(Seq<u8>),
    UserAgent,
    Files(Seq<u8>),
    Unknown,
}

/// First match wins: `/` exactly, then the `/echo/` prefix, then
/// `/user-agent` exactly, then the `/files/` prefix, then no match.
pub open spec fn spec_route_of(path: Seq<u8>) -> SpecRoute {
    if path == bs_path_root() {
        SpecRoute::Root
    } else if starts_with(path, bs_prefix_echo()) {
        SpecRoute::Echo(path.skip(6))
    } else if path == bs_path_user_agent() {
        SpecRoute::UserAgent
    } else if starts_with(path, bs_prefix_files()) {
        SpecRoute::Files(path.skip(7))
    } else {
        SpecRoute::Unknown
    }
}

/// The executable routing decision.
pub enum Route {
    Root,
    Echo(Vec<u8>),
    UserAgent,
    Files(Vec<u8>),
    Unknown,
}

/// The executable decision carries the same segment the spec one names.
pub open spec fn route_matches(r: Route, s: SpecRoute) -> bool {
    match r {
        Route::Root => s == SpecRoute::Root,
        Route::Echo(x) => s == SpecRoute::Echo(x@),
        Route::UserAgent => s == SpecRoute::UserAgent,
        Route::Files(n) => s == SpecRoute::Files(n@),
        Route::Unknown => s == SpecRoute::Unknown,
    }
}

/// Classify a path against the routing table.
pub fn route_of(path: &Vec<u8>) -> (r: Route)
    ensures
        route_matches(r, spec_route_of(path@)),
{
    let root = path_root_vec();
    if bytes_eq(path, &root) {
        return Route::Root;
    }
    let echo = prefix_echo_vec();
    if has_prefix(path, echo.as_slice()) {
        let rest = take_range(path, 6, path.len());
        proof {
            assert(rest@ =~= path@.skip(6));
        }
        return Route::Echo(rest);
    }
    let ua = path_user_agent_vec();
    if bytes_eq(path, &ua) {
        return Route::UserAgent;
    }
    let files = prefix_files_vec();
    if has_prefix(path, files.as_slice()) {
        let rest = take_range(path, 7, path.len());
        proof {
            assert(rest@ =~= path@.skip(7));
        }
        return Route::Files(rest);
    }
    Route::Unknown
}

/// Spec view of a response: status, headers in order, body.
pub open spec fn resp_view(r: Response) -> (StatusCode, Seq<(Seq<u8>, Seq<u8>)>, Seq<u8>) {
    (r.status, hview(r.headers@), r.body@)
}

/// A `200 OK` carrying `body` with its media type and exact length announced.
pub open spec fn spec_payload_response(mime: Seq<u8>, body: Seq<u8>) -> (
    StatusCode,
    Seq<(Seq<u8>, Seq<u8>)>,
    Seq<u8>,
) {
    (
        StatusCode::Ok200,
        seq![
            (bs_name_content_type(), mime),
            (bs_name_content_length(), dec_of(body.len() as nat)),
        ],
        body,
    )
}

/// A headerless, bodyless response.
pub open spec fn spec_empty_response(status: StatusCode) -> (
    StatusCode,
    Seq<(Seq<u8>, Seq<u8>)>,
    Seq<u8>,
) {
    (status, Seq::empty(), Seq::empty())
}

/// Routing failures that the connection handler answers itself.
#[derive(Debug, Clone, Copy, PartialEq, Eq, Structural)]
pub enum DispatchError {
    /// `/user-agent` was requested without a `User-Agent` header.
    MissingUserAgent,
}

/// An in-memory byte store keyed by name: the collaborator the `/files/`
/// routes read and overwrite. The binary backs the same interface with the
/// served directory; tests and the verified pipeline use this one directly.
pub struct FileStore {
    pub entries: Vec<(Vec<u8>, Vec<u8>)>,
}

impl FileStore {
    /// The stored name/contents pairs.
    pub open spec fn contents(&self) -> Seq<(Seq<u8>, Seq<u8>)> {
        hview(self.entries@)
    }

    /// Names are unique: a write replaces, it never duplicates.
    pub open spec fn wf(&self) -> bool {
        unique_names(self.contents())
    }

    /// An empty store.
    pub fn new() -> (r: FileStore)
        ensures
            r.wf(),
            r.contents() == Seq::<(Seq<u8>, Seq<u8>)>::empty(),
    {
        let r = FileStore { entries: Vec::new() };
        proof {
            assert(r.contents() =~= Seq::<(Seq<u8>, Seq<u8>)>::empty());
        }
        r
    }

    /// Whether `name` is stored.
    pub fn contains(&self, name: &Vec<u8>) -> (r: bool)
        ensures
            r == (pair_lookup(self.contents(), name@) is Some),
    {
        match pair_lookup_in(&self.entries, name) {
            Some(_) => true,
            None => false,
        }
    }

    /// The stored contents of `name`, if any.
    pub fn read(&self, name: &Vec<u8>) -> (r: Option<Vec<u8>>)
        ensures
            match r {
                Some(c) => pair_lookup(self.contents(), name@) == Some(c@),
                None => pair_lookup(self.contents(), name@) == None::<Seq<u8>>,
            },
    {
        match pair_lookup_in(&self.entries, name) {
            Some(v) => {
                let c = take_range(v, 0, v.len());
                proof {
                    assert(c@ =~= v@);
                }
                Some(c)
            },
            None => None,
        }
    }

    /// Store `contents` under `name`, fully overwriting any previous value.
    pub fn write(&mut self, name: Vec<u8>, contents: Vec<u8>)
        ensures
            final(self).contents() == spec_upsert(old(self).contents(), name@, contents@),
            old(self).wf() ==> final(self).wf(),
    {
        proof {
            if old(self).wf() {
                lemma_upsert_unique(old(self).contents(), name@, contents@);
            }
        }
        upsert_in(&mut self.entries, name, contents);
    }
}

/// Build a `200 OK` whose `Content-Type` is `mime` and whose body is framed
/// by an exact `Content-Length`.
pub fn payload_response(mime: Vec<u8>, body: Vec<u8>) -> (r: Response)
    ensures
        resp_view(r) == spec_payload_response(mime@, body@),
        r.body_framed(),
{
    let ghost gmime = mime@;
    let len_bytes = usize_to_dec(body.len());
    let r0 = Response::ok();
    proof {
        assert(hview(r0.headers@) =~= Seq::<(Seq<u8>, Seq<u8>)>::empty());
    }
    let r1 = r0.set_header(name_content_type_vec(), mime);
    proof {
        assert(hview(r1.headers@) =~= seq![(bs_name_content_type(), gmime)]);
    }
    let r2 = r1.set_header(name_content_length_vec(), len_bytes);
    proof {
        assert(bs_name_content_type() != bs_name_content_length());
        assert(seq![(bs_name_content_type(), gmime)].drop_first() =~= Seq::<
            (Seq<u8>, Seq<u8>),
        >::empty());
        assert(first_pair_index(Seq::<(Seq<u8>, Seq<u8>)>::empty(), bs_name_content_length())
            == None::<int>);
        assert(first_pair_index(seq![(bs_name_content_type(), gmime)], bs_name_content_length())
            == None::<int>);
        assert(hview(r2.headers@) =~= seq![
            (bs_name_content_type(), gmime),
            (bs_name_content_length(), dec_of(body@.len() as nat)),
        ]);
    }
    let r3 = r2.set_body(body.as_slice());
    proof {
        assert(r3.body@ =~= body@);
        assert(resp_view(r3).1 =~= spec_payload_response(gmime, body@).1);
    }
    r3
}

/// What one dispatch does: the reply — or the distinguishable dispatch
/// failure — and the store contents afterwards.
pub open spec fn spec_dispatch(
    m: Method,
    path: Seq<u8>,
    headers: Seq<(Seq<u8>, Seq<u8>)>,
    body: Seq<u8>,
    store: Seq<(Seq<u8>, Seq<u8>)>,
) -> (
    Result<(StatusCode, Seq<(Seq<u8>, Seq<u8>)>, Seq<u8>), DispatchError>,
    Seq<(Seq<u8>, Seq<u8>)>,
) {
    match spec_route_of(path) {
        SpecRoute::Root => (Ok(spec_empty_response(StatusCode::Ok200)), store),
        SpecRoute::Echo(x) => (Ok(spec_payload_response(bs_mime_text_plain(), x)), store),
        SpecRoute::UserAgent => match pair_lookup(headers, bs_name_user_agent()) {
            Some(v) => (Ok(spec_payload_response(bs_mime_text_plain(), v)), store),
            None => (Err(DispatchError::MissingUserAgent), store),
        },
        SpecRoute::Files(name) => match m {
            Method::Get => match pair_lookup(store, name) {
                Some(c) => (Ok(spec_payload_response(bs_mime_octet_stream(), c)), store),
                None => (Ok(spec_empty_response(StatusCode::NotFound404)), store),
            },
            Method::Post => (
                Ok(spec_empty_response(StatusCode::Created201)),
                spec_upsert(store, name, body),
            ),
        },
        SpecRoute::Unknown => (Ok(spec_empty_response(StatusCode::NotFound404)), store),
    }
}

/// Dispatch one request against the store, per the routing table: `/` is an
/// empty `200 OK`; `/echo/<x>` echoes `<x>`; `/user-agent` echoes that
/// header or fails distinguishably without it; `/files/<name>` reads (200 or
/// empty 404) on GET and overwrites (empty 201) on POST; anything else is an
/// empty `404 Not Found`. Every reply is correctly framed.
pub fn dispatch(req: Request, store: &mut FileStore) -> (r: Result<Response, DispatchError>)
    requires
        old(store).wf(),
    ensures
        final(store).wf(),
        ({
            let (d, st2) = spec_dispatch(
                req.method,
                req.path@,
                hview(req.headers@),
                req.body@,
                old(store).contents(),
            );
            final(store).contents() == st2 && match r {
                Ok(resp) => d == Ok::<_, DispatchError>(resp_view(resp)) && resp.body_framed(),
                Err(e) => d == Err::<(StatusCode, Seq<(Seq<u8>, Seq<u8>)>, Seq<u8>), _>(e),
            }
        }),
{
    match route_of(&req.path) {
        Route::Root => {
            let resp = Response::ok();
            proof {
                assert(hview(resp.headers@) =~= Seq::<(Seq<u8>, Seq<u8>)>::empty());
                assert(resp.body@ =~= Seq::<u8>::empty());
            }
            Ok(resp)
        },
        Route::Echo(x) => Ok(payload_response(mime_text_plain_vec(), x)),
        Route::UserAgent => {
            let ua_name = name_user_agent_vec();
            match req.get_header(&ua_name) {
                Some(v) => {
                    let c = take_range(v, 0, v.len());
                    proof {
                        assert(c@ =~= v@);
                    }
                    Ok(payload_response(mime_text_plain_vec(), c))
                },
                None => Err(DispatchError::MissingUserAgent),
            }
        },
        Route::Files(name) => match req.method {
            Method::Get => match store.read(&name) {
                Some(c) => Ok(payload_response(mime_octet_stream_vec(), c)),
                None => {
                    let resp = Response::not_found();
                    proof {
                        assert(hview(resp.headers@) =~= Seq::<(Seq<u8>, Seq<u8>)>::empty());
                        assert(resp.body@ =~= Seq::<u8>::empty());
                    }
                    Ok(resp)
                },
            },
            Method::Post => {
                store.write(name, req.body);
                let resp = Response::created();
                proof {
                    assert(hview(resp.headers@) =~= Seq::<(Seq<u8>, Seq<u8>)>::empty());
                    assert(resp.body@ =~= Seq::<u8>::empty());
                }
                Ok(resp)
            },
        },
        Route::Unknown => {
            let resp = Response::not_found();
            proof {
                assert(hview(resp.headers@) =~= Seq::<(Seq<u8>, Seq<u8>)>::empty());
                assert(resp.body@ =~= Seq::<u8>::empty());
            }
            Ok(resp)
        },
    }
}

} // verus!

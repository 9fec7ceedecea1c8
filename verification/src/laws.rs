//! The laws of the protocol layer, each proved over the spec functions that
//! the executable functions' contracts are stated in.

use vstd::prelude::*;
use crate::bytes::{dec_val, dec_of, lemma_dec_of_val, starts_with};
use crate::http::{
    Method, StatusCode, pair_lookup, spec_upsert, unique_names, lemma_lookup_at,
    lemma_lookup_upsert_same,
};
use crate::router::{
    SpecRoute, spec_route_of, spec_dispatch, spec_payload_response, spec_empty_response,
    DispatchError,
};
use crate::codec::{
    spec_parse_request, spec_decode_response, spec_encode_response, header_pair_ok, headers_ok,
    lemma_response_round_trip,
};
use crate::tokens::{
    bs_path_root, bs_prefix_echo, bs_path_user_agent, bs_prefix_files, bs_name_content_type,
    bs_name_content_length, bs_name_user_agent, bs_mime_text_plain, bs_mime_octet_stream,
};

verus! {

/// In any decoded header list, the last occurrence of a name is the one a
/// lookup observes: repeated names keep only their final value.
pub proof fn lemma_last_occurrence_wins(h: Seq<(Seq<u8>, Seq<u8>)>, name: Seq<u8>, i: int)
    requires
        0 <= i < h.len(),
        h[i].0 == name,
        forall|j: int| i < j < h.len() ==> h[j].0 != name,
    ensures
        pair_lookup(h, name) == Some(h[i].1),
{
    lemma_lookup_at(h, name, h[i].1, i);
}

/// `/echo/<x>` is always routed to the echo handler with exactly `<x>`.
proof fn lemma_route_echo(x: Seq<u8>)
    ensures
        spec_route_of(bs_prefix_echo() + x) == SpecRoute::Echo(x),
{
    let path = bs_prefix_echo() + x;
    assert(path.len() >= 6);
    assert(path != bs_path_root());
    assert(path.subrange(0, 6) =~= bs_prefix_echo());
    assert(starts_with(path, bs_prefix_echo()));
    assert(path.skip(6) =~= x);
}

/// `/files/<name>` is always routed to the file handler with exactly `<name>`.
proof fn lemma_route_files(name: Seq<u8>)
    ensures
        spec_route_of(bs_prefix_files() + name) == SpecRoute::Files(name),
{
    let path = bs_prefix_files() + name;
    assert(path.len() >= 7);
    assert(path != bs_path_root());
    assert(path[1] == 102);
    assert(!starts_with(path, bs_prefix_echo()));
    assert(path != bs_path_user_agent());
    assert(path.subrange(0, 7) =~= bs_prefix_files());
    assert(starts_with(path, bs_prefix_files()));
    assert(path.skip(7) =~= name);
}

/// The payload headers read back as written: the content length announces
/// exactly the body's length, the content type the given media type.
proof fn lemma_payload_headers(mime: Seq<u8>, body: Seq<u8>)
    ensures
        pair_lookup(spec_payload_response(mime, body).1, bs_name_content_length()) == Some(
            dec_of(body.len() as nat),
        ),
        pair_lookup(spec_payload_response(mime, body).1, bs_name_content_type()) == Some(mime),
{
    let h = spec_payload_response(mime, body).1;
    assert(h[1] == (bs_name_content_length(), dec_of(body.len() as nat)));
    lemma_lookup_at(h, bs_name_content_length(), dec_of(body.len() as nat), 1);
    assert(bs_name_content_type() != bs_name_content_length());
    lemma_lookup_at(h, bs_name_content_type(), mime, 0);
}

/// Echo: for every `x`, dispatching `GET /echo/<x>` replies `200 OK` whose
/// `Content-Length` names exactly `len(x)` and whose body is `x` verbatim,
/// and leaves the store untouched.
pub proof fn lemma_echo_reply(
    m: Method,
    x: Seq<u8>,
    headers: Seq<(Seq<u8>, Seq<u8>)>,
    body: Seq<u8>,
    store: Seq<(Seq<u8>, Seq<u8>)>,
)
    ensures
        ({
            let (d, st2) = spec_dispatch(m, bs_prefix_echo() + x, headers, body, store);
            &&& st2 == store
            &&& d == Ok::<_, DispatchError>(spec_payload_response(bs_mime_text_plain(), x))
            &&& spec_payload_response(bs_mime_text_plain(), x).0 == StatusCode::Ok200
            &&& spec_payload_response(bs_mime_text_plain(), x).2 == x
            &&& pair_lookup(
                spec_payload_response(bs_mime_text_plain(), x).1,
                bs_name_content_length(),
            ) == Some(dec_of(x.len() as nat))
            &&& dec_val(dec_of(x.len() as nat)) == x.len()
        }),
{
    lemma_route_echo(x);
    lemma_payload_headers(bs_mime_text_plain(), x);
    lemma_dec_of_val(x.len() as nat);
}

/// Files, GET: a stored name is served as `200 OK` with media type
/// `application/octet-stream`, a `Content-Length` naming the stored size and
/// the stored bytes verbatim; an absent name is an empty `404 Not Found`.
/// Either way the store is untouched.
pub proof fn lemma_files_get(
    name: Seq<u8>,
    headers: Seq<(Seq<u8>, Seq<u8>)>,
    body: Seq<u8>,
    store: Seq<(Seq<u8>, Seq<u8>)>,
)
    ensures
        ({
            let (d, st2) = spec_dispatch(
                Method::Get,
                bs_prefix_files() + name,
                headers,
                body,
                store,
            );
            &&& st2 == store
            &&& match pair_lookup(store, name) {
                Some(c) => d == Ok::<_, DispatchError>(
                    spec_payload_response(bs_mime_octet_stream(), c),
                ) && pair_lookup(
                    spec_payload_response(bs_mime_octet_stream(), c).1,
                    bs_name_content_type(),
                ) == Some(bs_mime_octet_stream()) && spec_payload_response(
                    bs_mime_octet_stream(),
                    c,
                ).2 == c,
                None => d == Ok::<_, DispatchError>(
                    spec_empty_response(StatusCode::NotFound404),
                ),
            }
        }),
{
    lemma_route_files(name);
    match pair_lookup(store, name) {
        Some(c) => {
            lemma_payload_headers(bs_mime_octet_stream(), c);
        },
        None => {},
    }
}

/// Files, POST then GET: writing body `b` under a name and immediately
/// reading that name back yields `201 Created` then `200 OK` with body
/// exactly `b` — overwrite/read consistency.
pub proof fn lemma_post_then_get(
    name: Seq<u8>,
    post_headers: Seq<(Seq<u8>, Seq<u8>)>,
    get_headers: Seq<(Seq<u8>, Seq<u8>)>,
    b: Seq<u8>,
    get_body: Seq<u8>,
    store: Seq<(Seq<u8>, Seq<u8>)>,
)
    requires
        unique_names(store),
    ensures
        ({
            let (d1, st1) = spec_dispatch(
                Method::Post,
                bs_prefix_files() + name,
                post_headers,
                b,
                store,
            );
            let (d2, st2) = spec_dispatch(
                Method::Get,
                bs_prefix_files() + name,
                get_headers,
                get_body,
                st1,
            );
            &&& d1 == Ok::<_, DispatchError>(spec_empty_response(StatusCode::Created201))
            &&& st1 == spec_upsert(store, name, b)
            &&& d2 == Ok::<_, DispatchError>(spec_payload_response(bs_mime_octet_stream(), b))
            &&& spec_payload_response(bs_mime_octet_stream(), b).2 == b
            &&& st2 == st1
        }),
{
    lemma_route_files(name);
    lemma_lookup_upsert_same(store, name, b);
}

/// A head without `Content-Length` decodes to an empty body: the codec never
/// infers a length from what else is on the connection.
pub proof fn lemma_no_content_length_empty_body(s: Seq<u8>)
    ensures
        match spec_parse_request(s) {
            Ok(q) => pair_lookup(q.2, bs_name_content_length()) == None::<Seq<u8>> ==> q.3
                == Seq::<u8>::empty(),
            Err(_) => true,
        },
{
}

/// Every reply shape the router produces — the empty replies and the two
/// framed payload replies — encodes to bytes that the strict peer-side
/// decoder reads back as exactly the status, headers and body that were set.
pub proof fn lemma_server_reply_round_trips(rv: (StatusCode, Seq<(Seq<u8>, Seq<u8>)>, Seq<u8>))
    requires
        rv == spec_empty_response(rv.0) || (rv.2.len() <= usize::MAX && (rv
            == spec_payload_response(bs_mime_text_plain(), rv.2) || rv == spec_payload_response(
            bs_mime_octet_stream(),
            rv.2,
        ))),
    ensures
        spec_decode_response(spec_encode_response(rv.0, rv.1, rv.2)) == Some(rv),
{
    if rv == spec_empty_response(rv.0) {
        assert(headers_ok(rv.1));
        lemma_response_round_trip(rv.0, rv.1, rv.2);
    } else {
        let mime = if rv == spec_payload_response(bs_mime_text_plain(), rv.2) {
            bs_mime_text_plain()
        } else {
            bs_mime_octet_stream()
        };
        lemma_dec_of_val(rv.2.len() as nat);
        assert(header_pair_ok((bs_name_content_type(), mime))) by {
            assert(forall|i: int|
                0 <= i < bs_name_content_type().len() ==> bs_name_content_type()[i] != 58
                    && bs_name_content_type()[i] != 13 && bs_name_content_type()[i] != 10);
            assert(forall|i: int| 0 <= i < mime.len() ==> mime[i] != 13 && mime[i] != 10);
        };
        let cl = dec_of(rv.2.len() as nat);
        assert(header_pair_ok((bs_name_content_length(), cl))) by {
            assert(forall|i: int|
                0 <= i < bs_name_content_length().len() ==> bs_name_content_length()[i] != 58
                    && bs_name_content_length()[i] != 13 && bs_name_content_length()[i] != 10);
            assert(forall|i: int| 0 <= i < cl.len() ==> cl[i] != 13 && cl[i] != 10);
        };
        assert(headers_ok(rv.1)) by {
            assert(rv.1[0] == (bs_name_content_type(), mime));
            assert(rv.1[1] == (bs_name_content_length(), cl));
        };
        lemma_payload_headers(mime, rv.2);
        lemma_response_round_trip(rv.0, rv.1, rv.2);
    }
}

/// `/user-agent` without a `User-Agent` header is the distinguishable
/// dispatch failure, and only that: the store is untouched and no reply is
/// fabricated. (The connection handler answers it with an empty
/// `404 Not Found` on that connection alone.)
pub proof fn lemma_user_agent_missing(
    m: Method,
    headers: Seq<(Seq<u8>, Seq<u8>)>,
    body: Seq<u8>,
    store: Seq<(Seq<u8>, Seq<u8>)>,
)
    requires
        pair_lookup(headers, bs_name_user_agent()) == None::<Seq<u8>>,
    ensures
        spec_dispatch(m, bs_path_user_agent(), headers, body, store) == (
            Err::<(StatusCode, Seq<(Seq<u8>, Seq<u8>)>, Seq<u8>), _>(
                DispatchError::MissingUserAgent,
            ),
            store,
        ),
{
    let path = bs_path_user_agent();
    assert(path.len() == 11 && bs_path_root().len() == 1);
    assert(path != bs_path_root());
    assert(path[1] == 117);
    assert(!starts_with(path, bs_prefix_echo()));
}

/// `/user-agent` with the header present echoes exactly its last value.
pub proof fn lemma_user_agent_present(
    m: Method,
    headers: Seq<(Seq<u8>, Seq<u8>)>,
    body: Seq<u8>,
    store: Seq<(Seq<u8>, Seq<u8>)>,
    v: Seq<u8>,
)
    requires
        pair_lookup(headers, bs_name_user_agent()) == Some(v),
    ensures
        spec_dispatch(m, bs_path_user_agent(), headers, body, store) == (
            Ok::<_, DispatchError>(spec_payload_response(bs_mime_text_plain(), v)),
            store,
        ),
{
    let path = bs_path_user_agent();
    assert(path.len() == 11 && bs_path_root().len() == 1);
    assert(path != bs_path_root());
    assert(path[1] == 117);
    assert(!starts_with(path, bs_prefix_echo()));
}

} // verus!

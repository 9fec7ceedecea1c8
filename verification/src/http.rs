//! The structured message types of the wire protocol: methods, status codes,
//! parse failures, requests, and builder-populated responses.
//!
//! Headers are kept as name/value byte pairs in order of arrival. Lookup is
//! last-occurrence-wins; `upsert` (used by the response builder and the file
//! store) replaces the first pair with the given name or appends a new one.

use vstd::prelude::*;
use crate::bytes::{bytes_eq, append_bytes, dec_of};
use crate::tokens::{
    bs_token_get, bs_token_post, bs_reason_ok, bs_reason_created, bs_reason_not_found,
    bs_name_content_length, token_get_vec, token_post_vec, reason_ok_vec, reason_created_vec,
    reason_not_found_vec,
};

verus! {

/// Why a request byte stream failed to parse.
#[derive(Debug, Clone, Copy, PartialEq, Eq, Structural)]
pub enum ParseErrorKind {
    /// The stream ended before any head line arrived.
    EmptyRequest,
    /// The start line did not split into exactly three space-separated tokens.
    MalformedStartLine,
    /// The method token named neither `GET` nor `POST`.
    UnsupportedMethod,
    /// A `Content-Length` value that is empty, non-decimal, or too large.
    InvalidContentLength,
    /// The stream ended before the announced body arrived; the payload is the
    /// total body length the head announced.
    TruncatedBody(usize),
}

/// A request parse failure.
#[derive(Debug, Clone, Copy, PartialEq, Eq, Structural)]
pub struct ParseError {
    pub kind: ParseErrorKind,
}

/// The two verbs this server accepts; any other start-line token is a parse
/// failure.
#[derive(Debug, Clone, Copy, PartialEq, Eq, Structural)]
pub enum Method {
    Get,
    Post,
}

/// Which method a start-line token names, if any (case-sensitive).
pub open spec fn spec_method_of(t: Seq<u8>) -> Option<Method> {
    if t == bs_token_get() {
        Some(Method::Get)
    } else if t == bs_token_post() {
        Some(Method::Post)
    } else {
        None
    }
}

impl Method {
    /// Parse a start-line method token.
    pub fn from_token(t: &Vec<u8>) -> (r: Result<Method, ParseError>)
        ensures
            match r {
                Ok(m) => spec_method_of(t@) == Some(m),
                Err(e) => spec_method_of(t@) == None::<Method> && e.kind
                    == ParseErrorKind::UnsupportedMethod,
            },
    {
        let g = token_get_vec();
        if bytes_eq(t, &g) {
            return Ok(Method::Get);
        }
        let p = token_post_vec();
        if bytes_eq(t, &p) {
            return Ok(Method::Post);
        }
        Err(ParseError { kind: ParseErrorKind::UnsupportedMethod })
    }
}

/// Spec view of a list of byte-pair entries (headers, store entries).
pub open spec fn hview(h: Seq<(Vec<u8>, Vec<u8>)>) -> Seq<(Seq<u8>, Seq<u8>)> {
    h.map_values(|p: (Vec<u8>, Vec<u8>)| (p.0@, p.1@))
}

/// Last-occurrence-wins lookup by exact name.
pub open spec fn pair_lookup(h: Seq<(Seq<u8>, Seq<u8>)>, name: Seq<u8>) -> Option<Seq<u8>>
    decreases h.len(),
{
    if h.len() == 0 {
        None
    } else if h.last().0 == name {
        Some(h.last().1)
    } else {
        pair_lookup(h.drop_last(), name)
    }
}

/// Index of the first entry named `name`, if any.
pub open spec fn first_pair_index(h: Seq<(Seq<u8>, Seq<u8>)>, name: Seq<u8>) -> Option<int>
    decreases h.len(),
{
    if h.len() == 0 {
        None
    } else if h.first().0 == name {
        Some(0)
    } else {
        match first_pair_index(h.drop_first(), name) {
            Some(i) => Some(i + 1),
            None => None,
        }
    }
}

/// Replace the value of the first entry named `name`, or append a new entry.
pub open spec fn spec_upsert(
    h: Seq<(Seq<u8>, Seq<u8>)>,
    name: Seq<u8>,
    value: Seq<u8>,
) -> Seq<(Seq<u8>, Seq<u8>)> {
    match first_pair_index(h, name) {
        Some(i) => h.update(i, (name, value)),
        None => h.push((name, value)),
    }
}

pub proof fn lemma_first_pair_index_some(h: Seq<(Seq<u8>, Seq<u8>)>, name: Seq<u8>, i: int)
    requires
        0 <= i < h.len(),
        h[i].0 == name,
        forall|j: int| 0 <= j < i ==> h[j].0 != name,
    ensures
        first_pair_index(h, name) == Some(i),
    decreases h.len(),
{
    if h.first().0 != name {
        assert(i > 0);
        assert(forall|j: int| 0 <= j < i - 1 ==> h.drop_first()[j].0 != name);
        lemma_first_pair_index_some(h.drop_first(), name, i - 1);
    }
}

pub proof fn lemma_first_pair_index_none(h: Seq<(Seq<u8>, Seq<u8>)>, name: Seq<u8>)
    requires
        forall|j: int| 0 <= j < h.len() ==> h[j].0 != name,
    ensures
        first_pair_index(h, name) == None::<int>,
    decreases h.len(),
{
    if h.len() > 0 {
        lemma_first_pair_index_none(h.drop_first(), name);
    }
}

pub proof fn lemma_first_pair_index_props(h: Seq<(Seq<u8>, Seq<u8>)>, name: Seq<u8>)
    ensures
        match first_pair_index(h, name) {
            Some(i) => 0 <= i < h.len() && h[i].0 == name && (forall|j: int|
                0 <= j < i ==> h[j].0 != name),
            None => forall|j: int| 0 <= j < h.len() ==> h[j].0 != name,
        },
    decreases h.len(),
{
    if h.len() > 0 && h.first().0 != name {
        let d = h.drop_first();
        lemma_first_pair_index_props(d, name);
        assert(forall|j: int| 0 <= j < d.len() ==> d[j] == h[j + 1]);
        match first_pair_index(d, name) {
            Some(i) => {
                assert(first_pair_index(h, name) == Some(i + 1));
                assert(h[i + 1].0 == name);
                assert(forall|j: int| 0 <= j < i + 1 ==> h[j].0 != name) by {
                    assert(forall|j: int| 1 <= j < i + 1 ==> h[j] == d[j - 1]);
                };
            },
            None => {
                assert(first_pair_index(h, name) == None::<int>);
                assert(forall|j: int| 0 <= j < h.len() ==> h[j].0 != name) by {
                    assert(forall|j: int| 1 <= j < h.len() ==> h[j] == d[j - 1]);
                };
            },
        }
    }
}

/// No two entries share a name. The builders and the file store maintain
/// this, so first-match replacement and last-wins lookup agree.
pub open spec fn unique_names(h: Seq<(Seq<u8>, Seq<u8>)>) -> bool {
    forall|i: int, j: int| 0 <= i < j < h.len() ==> h[i].0 != h[j].0
}

/// An upsert keeps names unique.
pub proof fn lemma_upsert_unique(h: Seq<(Seq<u8>, Seq<u8>)>, name: Seq<u8>, value: Seq<u8>)
    requires
        unique_names(h),
    ensures
        unique_names(spec_upsert(h, name, value)),
{
    lemma_first_pair_index_props(h, name);
}

/// In a list where index `i` holds `(name, value)` and no later entry is
/// named `name`, the last-wins lookup of `name` finds exactly `value`.
pub proof fn lemma_lookup_at(g: Seq<(Seq<u8>, Seq<u8>)>, name: Seq<u8>, value: Seq<u8>, i: int)
    requires
        0 <= i < g.len(),
        g[i] == (name, value),
        forall|j: int| i < j < g.len() ==> g[j].0 != name,
    ensures
        pair_lookup(g, name) == Some(value),
    decreases g.len(),
{
    if i == g.len() - 1 {
        assert(g.last() == (name, value));
    } else {
        assert(g.last().0 != name);
        assert(g.drop_last()[i] == g[i]);
        assert(forall|j: int| i < j < g.len() - 1 ==> g.drop_last()[j] == g[j]);
        lemma_lookup_at(g.drop_last(), name, value, i);
    }
}

/// After an upsert into a uniquely named list, looking up the same name
/// yields the new value.
pub proof fn lemma_lookup_upsert_same(h: Seq<(Seq<u8>, Seq<u8>)>, name: Seq<u8>, value: Seq<u8>)
    requires
        unique_names(h),
    ensures
        pair_lookup(spec_upsert(h, name, value), name) == Some(value),
{
    lemma_first_pair_index_props(h, name);
    match first_pair_index(h, name) {
        Some(i) => {
            let g = h.update(i, (name, value));
            assert(forall|j: int| i < j < g.len() ==> g[j].0 == h[j].0 && h[j].0 != h[i].0);
            lemma_lookup_at(g, name, value, i);
        },
        None => {
            let g = h.push((name, value));
            lemma_lookup_at(g, name, value, g.len() - 1);
        },
    }
}

/// Last-wins lookup in a list of byte-pair entries; returns a borrow of the
/// winning value.
pub fn pair_lookup_in<'a>(h: &'a Vec<(Vec<u8>, Vec<u8>)>, name: &Vec<u8>) -> (r: Option<
    &'a Vec<u8>,
>)
    ensures
        match r {
            Some(v) => pair_lookup(hview(h@), name@) == Some(v@),
            None => pair_lookup(hview(h@), name@) == None::<Seq<u8>>,
        },
{
    let ghost full = hview(h@);
    let mut i: usize = h.len();
    proof {
        assert(full.subrange(0, i as int) =~= full);
    }
    while i > 0
        invariant
            i <= h@.len(),
            full == hview(h@),
            pair_lookup(full, name@) == pair_lookup(full.subrange(0, i as int), name@),
        decreases i,
    {
        i = i - 1;
        let pair = &h[i];
        proof {
            assert(full[i as int] == (h@[i as int].0@, h@[i as int].1@));
            assert(full.subrange(0, i as int + 1).last() == full[i as int]);
            assert(full.subrange(0, i as int + 1).drop_last() =~= full.subrange(0, i as int));
        }
        if bytes_eq(&pair.0, name) {
            return Some(&pair.1);
        }
    }
    proof {
        assert(full.subrange(0, 0) =~= Seq::<(Seq<u8>, Seq<u8>)>::empty());
    }
    None
}

/// Replace the first entry named `name` with `(name, value)`, or append.
#[verifier::loop_isolation(false)]
pub fn upsert_in(h: &mut Vec<(Vec<u8>, Vec<u8>)>, name: Vec<u8>, value: Vec<u8>)
    ensures
        hview(final(h)@) == spec_upsert(hview(old(h)@), name@, value@),
{
    let ghost orig = hview(old(h)@);
    let ghost gname = name@;
    let ghost gvalue = value@;
    let mut i: usize = 0;
    while i < h.len()
        invariant
            i <= h@.len(),
            orig == hview(h@),
            forall|j: int| 0 <= j < i ==> orig[j].0 != name@,
        decreases h@.len() - i,
    {
        let matches_here = bytes_eq(&h[i].0, &name);
        proof {
            assert(orig[i as int] == (h@[i as int].0@, h@[i as int].1@));
        }
        if matches_here {
            proof {
                lemma_first_pair_index_some(orig, name@, i as int);
            }
            let pair = (name, value);
            let ghost gpair = pair;
            proof {
                assert(gpair.0@ == gname && gpair.1@ == gvalue);
            }
            let ghost before = h@;
            h.remove(i);
            h.insert(i, pair);
            proof {
                let e = gpair;
                assert(h@[i as int] == e);
                before.remove_ensures(i as int);
                before.remove(i as int).insert_ensures(i as int, e);
                assert(h@ =~= before.update(i as int, e));
                assert(forall|j: int|
                    0 <= j < h@.len() ==> hview(h@)[j] == (h@[j].0@, h@[j].1@));
                assert(hview(h@) =~= orig.update(i as int, (gname, gvalue)));
                assert(first_pair_index(orig, gname) == Some(i as int));
                assert(spec_upsert(orig, gname, gvalue) == orig.update(
                    i as int,
                    (gname, gvalue),
                ));
            }
            return;
        }
        i += 1;
    }
    proof {
        lemma_first_pair_index_none(orig, gname);
    }
    let pair = (name, value);
    let ghost gpair = pair;
    proof {
        assert(gpair.0@ == gname && gpair.1@ == gvalue);
    }
    h.push(pair);
    proof {
        assert(h@.last() == gpair);
        assert(forall|j: int| 0 <= j < h@.len() ==> hview(h@)[j] == (h@[j].0@, h@[j].1@));
        assert(hview(h@) =~= orig.push((gname, gvalue)));
    }
}

/// One decoded request: constructed by the codec, then owned by the
/// connection handler for a single exchange.
#[derive(Debug)]
pub struct Request {
    pub method: Method,
    pub path: Vec<u8>,
    pub headers: Vec<(Vec<u8>, Vec<u8>)>,
    pub body: Vec<u8>,
}

impl Request {
    /// The header view of this request.
    pub open spec fn headers_view(&self) -> Seq<(Seq<u8>, Seq<u8>)> {
        hview(self.headers@)
    }

    /// Last-wins lookup of a header by exact (case-sensitive) name.
    pub fn get_header(&self, name: &Vec<u8>) -> (r: Option<&Vec<u8>>)
        ensures
            match r {
                Some(v) => pair_lookup(self.headers_view(), name@) == Some(v@),
                None => pair_lookup(self.headers_view(), name@) == None::<Seq<u8>>,
            },
    {
        pair_lookup_in(&self.headers, name)
    }
}

/// The closed set of statuses the handlers produce.
#[derive(Debug, Clone, Copy, PartialEq, Eq, Structural)]
pub enum StatusCode {
    Ok200,
    Created201,
    NotFound404,
}

/// The code-and-reason text of the status line, e.g. `"200 OK"`.
pub open spec fn spec_status_text(s: StatusCode) -> Seq<u8> {
    match s {
        StatusCode::Ok200 => bs_reason_ok(),
        StatusCode::Created201 => bs_reason_created(),
        StatusCode::NotFound404 => bs_reason_not_found(),
    }
}

impl StatusCode {
    /// The code-and-reason text of this status.
    pub fn text(&self) -> (r: Vec<u8>)
        ensures
            r@ == spec_status_text(*self),
    {
        match self {
            StatusCode::Ok200 => reason_ok_vec(),
            StatusCode::Created201 => reason_created_vec(),
            StatusCode::NotFound404 => reason_not_found_vec(),
        }
    }
}

/// A response under construction: status, headers in insertion order, body.
#[derive(Debug)]
pub struct Response {
    pub status: StatusCode,
    pub headers: Vec<(Vec<u8>, Vec<u8>)>,
    pub body: Vec<u8>,
}

impl Response {
    /// The header view of this response.
    pub open spec fn headers_view(&self) -> Seq<(Seq<u8>, Seq<u8>)> {
        hview(self.headers@)
    }

    /// The framing invariant the router upholds: a non-empty body is
    /// announced by a `Content-Length` header holding its exact length.
    pub open spec fn body_framed(&self) -> bool {
        self.body@.len() > 0 ==> pair_lookup(self.headers_view(), bs_name_content_length())
            == Some(dec_of(self.body@.len() as nat))
    }

    /// An empty `200 OK` response.
    pub fn ok() -> (r: Response)
        ensures
            r.status == StatusCode::Ok200,
            r.headers@.len() == 0,
            r.body@.len() == 0,
    {
        Response { status: StatusCode::Ok200, headers: Vec::new(), body: Vec::new() }
    }

    /// An empty `404 Not Found` response.
    pub fn not_found() -> (r: Response)
        ensures
            r.status == StatusCode::NotFound404,
            r.headers@.len() == 0,
            r.body@.len() == 0,
    {
        Response { status: StatusCode::NotFound404, headers: Vec::new(), body: Vec::new() }
    }

    /// An empty `201 Created` response.
    pub fn created() -> (r: Response)
        ensures
            r.status == StatusCode::Created201,
            r.headers@.len() == 0,
            r.body@.len() == 0,
    {
        Response { status: StatusCode::Created201, headers: Vec::new(), body: Vec::new() }
    }

    /// Set a header: replaces the value of the first pair with this name, or
    /// appends a new pair, keeping insertion order deterministic.
    pub fn set_header(self, name: Vec<u8>, value: Vec<u8>) -> (r: Response)
        ensures
            r.status == self.status,
            r.body@ == self.body@,
            r.headers_view() == spec_upsert(self.headers_view(), name@, value@),
    {
        let mut s = self;
        upsert_in(&mut s.headers, name, value);
        s
    }

    /// Append bytes to the body; the caller remains responsible for framing.
    pub fn set_body(self, body: &[u8]) -> (r: Response)
        ensures
            r.status == self.status,
            r.headers@ == self.headers@,
            r.body@ == self.body@ + body@,
    {
        let mut s = self;
        append_bytes(&mut s.body, body);
        s
    }
}

} // verus!

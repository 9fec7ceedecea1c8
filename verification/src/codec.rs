//! The wire codec: decode a request byte stream into a `Request`, and encode
//! a `Response` into its byte-exact HTTP/1.1 message.
//!
//! Decoding reads CRLF- or LF-terminated head lines up to the first empty
//! line, parses the start line into exactly three space-separated tokens,
//! parses each remaining line at its first `": "` into a header pair (lines
//! without the delimiter are skipped), and then reads exactly
//! `Content-Length` body bytes (an absent header means an empty body).

use vstd::prelude::*;
use crate::bytes::{
    find_byte, find_byte_at, take_range, append_bytes, all_digits, dec_val, dec_of, parse_dec,
    lemma_find_byte_props, lemma_find_byte_some, lemma_find_byte_none, lemma_dec_of_val,
};
use crate::http::{
    Method, ParseError, ParseErrorKind, Request, Response, StatusCode, hview, pair_lookup,
    pair_lookup_in, spec_method_of, spec_status_text,
};
use crate::tokens::{
    bs_name_content_length, bs_status_prefix, bs_crlf, bs_reason_ok, bs_reason_created,
    bs_reason_not_found, bs_token_get, bs_token_post, bs_http_version, name_content_length_vec,
    status_prefix_vec, crlf_vec,
};

verus! {

/// Spec view of a list of lines.
pub open spec fn lines_view(ls: Seq<Vec<u8>>) -> Seq<Seq<u8>> {
    ls.map_values(|l: Vec<u8>| l@)
}

/// A line terminator strips one trailing CR when the line ended in CRLF.
pub open spec fn strip_cr(line: Seq<u8>) -> Seq<u8> {
    if line.len() > 0 && line.last() == 13 {
        line.drop_last()
    } else {
        line
    }
}

/// The head line starting at `from` (terminator stripped), and the position
/// just past its LF; a line cut short by end of input is still a line.
pub open spec fn spec_line_at(s: Seq<u8>, from: int) -> (Seq<u8>, int) {
    match find_byte(s, from, 10) {
        Some(i) => (strip_cr(s.subrange(from, i)), i + 1),
        None => (s.subrange(from, s.len() as int), s.len() as int),
    }
}

/// All head lines from `from` up to the first empty line (consumed) or the
/// end of input, and the index where the body begins.
pub open spec fn spec_head_lines(s: Seq<u8>, from: int) -> (Seq<Seq<u8>>, int)
    decreases s.len() - from
        when 0 <= from <= s.len()
        via spec_head_lines_dec
{
    if from >= s.len() {
        (Seq::empty(), from)
    } else {
        let (line, next) = spec_line_at(s, from);
        if line.len() == 0 {
            (Seq::empty(), next)
        } else {
            let (rest, bs) = spec_head_lines(s, next);
            (seq![line] + rest, bs)
        }
    }
}

#[via_fn]
proof fn spec_head_lines_dec(s: Seq<u8>, from: int) {
    if from < s.len() {
        lemma_find_byte_props(s, from, 10);
    }
}

/// Start-line tokens: split on every single space, empty tokens kept.
pub open spec fn spec_split_sp(line: Seq<u8>, from: int) -> Seq<Seq<u8>>
    decreases line.len() - from
        when 0 <= from <= line.len()
        via spec_split_sp_dec
{
    match find_byte(line, from, 32) {
        Some(i) => seq![line.subrange(from, i)] + spec_split_sp(line, i + 1),
        None => seq![line.subrange(from, line.len() as int)],
    }
}

#[via_fn]
proof fn spec_split_sp_dec(line: Seq<u8>, from: int) {
    lemma_find_byte_props(line, from, 32);
}

/// Index of the first `": "` in `line` at or after `from`, if any.
pub open spec fn find_colon_sp(line: Seq<u8>, from: int) -> Option<int>
    decreases line.len() - from
        when 0 <= from
{
    if from + 2 > line.len() {
        None
    } else if line[from] == 58 && line[from + 1] == 32 {
        Some(from)
    } else {
        find_colon_sp(line, from + 1)
    }
}

/// The header pair of one head line: the text before the first `": "` and
/// the text after it; `None` when the delimiter never occurs.
pub open spec fn spec_header_of_line(line: Seq<u8>) -> Option<(Seq<u8>, Seq<u8>)> {
    match find_colon_sp(line, 0) {
        Some(i) => Some((line.subrange(0, i), line.subrange(i + 2, line.len() as int))),
        None => None,
    }
}

/// The header pairs of the lines after the start line, in order of arrival.
pub open spec fn spec_headers_of(lines: Seq<Seq<u8>>) -> Seq<(Seq<u8>, Seq<u8>)>
    decreases lines.len(),
{
    if lines.len() == 0 {
        Seq::empty()
    } else {
        let rest = spec_headers_of(lines.drop_first());
        match spec_header_of_line(lines.first()) {
            Some(p) => seq![p] + rest,
            None => rest,
        }
    }
}

/// The outcome of decoding one request from `s`: on success the method, the
/// path, the header pairs in arrival order, and the body bytes.
pub open spec fn spec_parse_request(s: Seq<u8>) -> Result<
    (Method, Seq<u8>, Seq<(Seq<u8>, Seq<u8>)>, Seq<u8>),
    ParseErrorKind,
> {
    let (lines, body_start) = spec_head_lines(s, 0);
    if lines.len() == 0 {
        Err(ParseErrorKind::EmptyRequest)
    } else {
        let toks = spec_split_sp(lines[0], 0);
        if toks.len() != 3 {
            Err(ParseErrorKind::MalformedStartLine)
        } else {
            match spec_method_of(toks[0]) {
                None => Err(ParseErrorKind::UnsupportedMethod),
                Some(m) => {
                    let hdrs = spec_headers_of(lines.drop_first());
                    match pair_lookup(hdrs, bs_name_content_length()) {
                        None => Ok((m, toks[1], hdrs, Seq::empty())),
                        Some(v) => {
                            if !(v.len() > 0 && all_digits(v) && dec_val(v) <= usize::MAX) {
                                Err(ParseErrorKind::InvalidContentLength)
                            } else {
                                let n = dec_val(v) as int;
                                if body_start + n > s.len() {
                                    Err(ParseErrorKind::TruncatedBody(dec_val(v) as usize))
                                } else {
                                    Ok((m, toks[1], hdrs, s.subrange(body_start, body_start + n)))
                                }
                            }
                        },
                    }
                },
            }
        }
    }
}

/// One executable head line, matching `spec_line_at`.
#[verifier::loop_isolation(false)]
fn line_at(s: &Vec<u8>, from: usize) -> (r: (Vec<u8>, usize))
    requires
        from < s@.len(),
    ensures
        ({
            let (line, next) = spec_line_at(s@, from as int);
            r.0@ == line && r.1 as int == next && from < r.1 <= s@.len()
        }),
{
    let n = s.len();
    proof {
        lemma_find_byte_props(s@, from as int, 10);
    }
    match find_byte_at(s, from, 10) {
        Some(i) => {
            assert(i < n);
            let mut line = take_range(s, from, i);
            if line.len() > 0 && line[line.len() - 1] == 13 {
                line.pop();
            }
            (line, i + 1)
        },
        None => {
            let line = take_range(s, from, s.len());
            (line, s.len())
        },
    }
}

/// All executable head lines, matching `spec_head_lines`.
fn head_lines(s: &Vec<u8>, from: usize) -> (r: (Vec<Vec<u8>>, usize))
    requires
        from <= s@.len(),
    ensures
        ({
            let (lines, bs) = spec_head_lines(s@, from as int);
            lines_view(r.0@) == lines && r.1 as int == bs && from <= r.1 <= s@.len()
        }),
    decreases s@.len() - from,
{
    if from >= s.len() {
        let empty: Vec<Vec<u8>> = Vec::new();
        proof {
            assert(lines_view(empty@) =~= Seq::<Seq<u8>>::empty());
        }
        (empty, from)
    } else {
        let (line, next) = line_at(s, from);
        if line.len() == 0 {
            let empty: Vec<Vec<u8>> = Vec::new();
            proof {
                assert(lines_view(empty@) =~= Seq::<Seq<u8>>::empty());
            }
            (empty, next)
        } else {
            let ghost gline = line@;
            let (mut rest, bs) = head_lines(s, next);
            let ghost grest = lines_view(rest@);
            rest.insert(0, line);
            proof {
                assert(forall|j: int|
                    0 <= j < rest@.len() ==> lines_view(rest@)[j] == rest@[j]@);
                assert(lines_view(rest@) =~= seq![gline] + grest);
            }
            (rest, bs)
        }
    }
}

/// Executable start-line tokens, matching `spec_split_sp`.
fn split_sp(line: &Vec<u8>, from: usize) -> (r: Vec<Vec<u8>>)
    requires
        from <= line@.len(),
    ensures
        lines_view(r@) == spec_split_sp(line@, from as int),
    decreases line@.len() - from,
{
    let n = line.len();
    proof {
        lemma_find_byte_props(line@, from as int, 32);
    }
    match find_byte_at(line, from, 32) {
        Some(i) => {
            assert(i < n);
            let tok = take_range(line, from, i);
            let ghost gtok = tok@;
            let mut rest = split_sp(line, i + 1);
            let ghost grest = lines_view(rest@);
            rest.insert(0, tok);
            proof {
                assert(forall|j: int|
                    0 <= j < rest@.len() ==> lines_view(rest@)[j] == rest@[j]@);
                assert(lines_view(rest@) =~= seq![gtok] + grest);
            }
            rest
        },
        None => {
            let tok = take_range(line, from, line.len());
            let ghost gtok = tok@;
            let mut v: Vec<Vec<u8>> = Vec::new();
            v.push(tok);
            proof {
                assert(lines_view(v@) =~= seq![gtok]);
            }
            v
        },
    }
}

/// Executable `": "` search, matching `find_colon_sp`.
fn find_colon_sp_at(line: &Vec<u8>, from: usize) -> (r: Option<usize>)
    requires
        from <= line@.len(),
    ensures
        match r {
            Some(i) => find_colon_sp(line@, from as int) == Some(i as int) && from <= i && i + 2
                <= line@.len(),
            None => find_colon_sp(line@, from as int) == None::<int>,
        },
    decreases line@.len() - from,
{
    if line.len() < 2 || from > line.len() - 2 {
        assert(from + 2 > line@.len());
        None
    } else if line[from] == 58 && line[from + 1] == 32 {
        Some(from)
    } else {
        find_colon_sp_at(line, from + 1)
    }
}

/// Executable header split of one line, matching `spec_header_of_line`.
fn header_of_line(line: &Vec<u8>) -> (r: Option<(Vec<u8>, Vec<u8>)>)
    ensures
        match r {
            Some(p) => spec_header_of_line(line@) == Some((p.0@, p.1@)),
            None => spec_header_of_line(line@) == None::<(Seq<u8>, Seq<u8>)>,
        },
{
    let n = line.len();
    match find_colon_sp_at(line, 0) {
        Some(i) => {
            assert(i + 2 <= n);
            let name = take_range(line, 0, i);
            let value = take_range(line, i + 2, line.len());
            Some((name, value))
        },
        None => None,
    }
}

/// Executable header pairs of `lines[from..]`, matching `spec_headers_of`.
fn headers_from(lines: &Vec<Vec<u8>>, from: usize) -> (r: Vec<(Vec<u8>, Vec<u8>)>)
    requires
        from <= lines@.len(),
    ensures
        hview(r@) == spec_headers_of(lines_view(lines@).subrange(from as int, lines@.len() as int)),
    decreases lines@.len() - from,
{
    let ghost whole = lines_view(lines@);
    if from >= lines.len() {
        let empty: Vec<(Vec<u8>, Vec<u8>)> = Vec::new();
        proof {
            assert(whole.subrange(from as int, lines@.len() as int)
                =~= Seq::<Seq<u8>>::empty());
            assert(hview(empty@) =~= Seq::<(Seq<u8>, Seq<u8>)>::empty());
        }
        empty
    } else {
        let mut rest = headers_from(lines, from + 1);
        let ghost grest = hview(rest@);
        proof {
            assert(whole.subrange(from as int, lines@.len() as int).first() == whole[from as int]);
            assert(whole[from as int] == lines@[from as int]@);
            assert(whole.subrange(from as int, lines@.len() as int).drop_first()
                =~= whole.subrange(from as int + 1, lines@.len() as int));
        }
        match header_of_line(&lines[from]) {
            Some(p) => {
                let ghost gp = (p.0@, p.1@);
                rest.insert(0, p);
                proof {
                    assert(forall|j: int|
                        0 <= j < rest@.len() ==> hview(rest@)[j] == (rest@[j].0@, rest@[j].1@));
                    assert(hview(rest@) =~= seq![gp] + grest);
                }
                rest
            },
            None => rest,
        }
    }
}

/// Decode one request from `input`. The result matches `spec_parse_request`
/// exactly: every accepted input yields the parsed method, path, headers and
/// body, and every rejected input yields the kind of its first failure. A
/// `TruncatedBody` failure names the body length the head announced, so a
/// caller holding only the head bytes knows how many more to read.
#[verifier::loop_isolation(false)]
pub fn parse_request(input: &Vec<u8>) -> (r: Result<Request, ParseError>)
    ensures
        match r {
            Ok(req) => spec_parse_request(input@) == Ok::<_, ParseErrorKind>(
                (req.method, req.path@, hview(req.headers@), req.body@),
            ),
            Err(e) => spec_parse_request(input@) == Err::<
                (Method, Seq<u8>, Seq<(Seq<u8>, Seq<u8>)>, Seq<u8>),
                _,
            >(e.kind),
        },
{
    let (lines, body_start) = head_lines(input, 0);
    let ghost glines = lines_view(lines@);
    if lines.len() == 0 {
        return Err(ParseError { kind: ParseErrorKind::EmptyRequest });
    }
    let toks = split_sp(&lines[0], 0);
    let ghost gtoks = lines_view(toks@);
    proof {
        assert(glines[0] == lines@[0]@);
    }
    if toks.len() != 3 {
        return Err(ParseError { kind: ParseErrorKind::MalformedStartLine });
    }
    proof {
        assert(gtoks[0] == toks@[0]@);
        assert(gtoks[1] == toks@[1]@);
    }
    let method = match Method::from_token(&toks[0]) {
        Ok(m) => m,
        Err(e) => {
            return Err(e);
        },
    };
    let headers = headers_from(&lines, 1);
    proof {
        assert(glines.subrange(1, glines.len() as int) =~= glines.drop_first());
    }
    let mut toks = toks;
    let path = toks.remove(1);
    let cl_name = name_content_length_vec();
    let cl = pair_lookup_in(&headers, &cl_name);
    match cl {
        None => {
            let req = Request { method, path, headers, body: Vec::new() };
            proof {
                assert(req.body@ =~= Seq::<u8>::empty());
            }
            Ok(req)
        },
        Some(v) => {
            match parse_dec(v) {
                None => Err(ParseError { kind: ParseErrorKind::InvalidContentLength }),
                Some(n) => {
                    if n > input.len() - body_start {
                        Err(ParseError { kind: ParseErrorKind::TruncatedBody(n) })
                    } else {
                        let body = take_range(input, body_start, body_start + n);
                        let req = Request { method, path, headers, body };
                        Ok(req)
                    }
                },
            }
        },
    }
}

/// The wire bytes of one header line: `name`, `": "`, `value`, CRLF.
pub open spec fn spec_header_line(p: (Seq<u8>, Seq<u8>)) -> Seq<u8> {
    p.0 + seq![58u8, 32] + p.1 + bs_crlf()
}

/// The wire bytes of a header block, in stored order.
pub open spec fn spec_encode_headers(h: Seq<(Seq<u8>, Seq<u8>)>) -> Seq<u8>
    decreases h.len(),
{
    if h.len() == 0 {
        Seq::empty()
    } else {
        spec_header_line(h.first()) + spec_encode_headers(h.drop_first())
    }
}

/// The full wire bytes of a response: status line, header block, blank line,
/// body verbatim. No header is inserted or recomputed here.
pub open spec fn spec_encode_response(
    status: StatusCode,
    h: Seq<(Seq<u8>, Seq<u8>)>,
    body: Seq<u8>,
) -> Seq<u8> {
    bs_status_prefix() + spec_status_text(status) + bs_crlf() + spec_encode_headers(h) + bs_crlf()
        + body
}

pub proof fn lemma_encode_headers_push(h: Seq<(Seq<u8>, Seq<u8>)>, p: (Seq<u8>, Seq<u8>))
    ensures
        spec_encode_headers(h.push(p)) == spec_encode_headers(h) + spec_header_line(p),
    decreases h.len(),
{
    if h.len() == 0 {
        assert(h.push(p).first() == p);
        assert(h.push(p).drop_first() =~= Seq::<(Seq<u8>, Seq<u8>)>::empty());
        assert(spec_encode_headers(Seq::<(Seq<u8>, Seq<u8>)>::empty()) == Seq::<u8>::empty());
        assert(spec_encode_headers(h.push(p)) == spec_header_line(p) + Seq::<u8>::empty());
        assert(spec_encode_headers(h.push(p)) =~= spec_encode_headers(h) + spec_header_line(p));
    } else {
        assert(h.push(p).first() == h.first());
        assert(h.push(p).drop_first() =~= h.drop_first().push(p));
        lemma_encode_headers_push(h.drop_first(), p);
        assert(spec_header_line(h.first()) + (spec_encode_headers(h.drop_first())
            + spec_header_line(p)) =~= (spec_header_line(h.first()) + spec_encode_headers(
            h.drop_first(),
        )) + spec_header_line(p));
    }
}

impl Response {
    /// Encode this response into its byte-exact wire message.
    #[verifier::loop_isolation(false)]
    pub fn encode(&self) -> (r: Vec<u8>)
        ensures
            r@ == spec_encode_response(self.status, self.headers_view(), self.body@),
    {
        let ghost hv = self.headers_view();
        let mut out: Vec<u8> = Vec::new();
        let sp = status_prefix_vec();
        append_bytes(&mut out, sp.as_slice());
        let tx = self.status.text();
        append_bytes(&mut out, tx.as_slice());
        let crlf = crlf_vec();
        append_bytes(&mut out, crlf.as_slice());
        let ghost head = bs_status_prefix() + spec_status_text(self.status) + bs_crlf();
        proof {
            assert(out@ =~= head + spec_encode_headers(hv.subrange(0, 0)));
        }
        let mut i: usize = 0;
        while i < self.headers.len()
            invariant
                i <= self.headers@.len(),
                out@ == head + spec_encode_headers(hv.subrange(0, i as int)),
            decreases self.headers@.len() - i,
        {
            append_bytes(&mut out, self.headers[i].0.as_slice());
            out.push(58);
            out.push(32);
            append_bytes(&mut out, self.headers[i].1.as_slice());
            append_bytes(&mut out, crlf.as_slice());
            proof {
                assert(hv[i as int] == (self.headers@[i as int].0@, self.headers@[i as int].1@));
                assert(hv.subrange(0, i as int + 1) =~= hv.subrange(0, i as int).push(
                    hv[i as int],
                ));
                lemma_encode_headers_push(hv.subrange(0, i as int), hv[i as int]);
                assert(out@ =~= head + spec_encode_headers(hv.subrange(0, i as int + 1)));
            }
            i += 1;
        }
        proof {
            assert(hv.subrange(0, self.headers@.len() as int) =~= hv);
        }
        append_bytes(&mut out, crlf.as_slice());
        append_bytes(&mut out, self.body.as_slice());
        proof {
            assert(out@ =~= spec_encode_response(self.status, hv, self.body@));
        }
        out
    }
}

/// A byte search is unmoved by a prefix before the searched range.
proof fn lemma_find_byte_shift(pre: Seq<u8>, s: Seq<u8>, k: int, b: u8)
    requires
        0 <= k,
    ensures
        find_byte(pre + s, pre.len() + k, b) == match find_byte(s, k, b) {
            Some(i) => Some(i + pre.len()),
            None => None::<int>,
        },
    decreases s.len() - k,
{
    let t = pre + s;
    if k < s.len() {
        assert(t[pre.len() + k] == s[k]);
        if s[k] != b {
            lemma_find_byte_shift(pre, s, k + 1, b);
        }
    }
}

/// Head-line reading is unmoved by a prefix before the read range.
proof fn lemma_head_lines_shift(pre: Seq<u8>, s: Seq<u8>, k: int)
    requires
        0 <= k <= s.len(),
    ensures
        spec_head_lines(pre + s, pre.len() + k) == ({
            let (ls, bs) = spec_head_lines(s, k);
            (ls, bs + pre.len())
        }),
    decreases s.len() - k,
{
    let t = pre + s;
    if k < s.len() {
        lemma_find_byte_shift(pre, s, k, 10);
        lemma_find_byte_props(s, k, 10);
        match find_byte(s, k, 10) {
            Some(i) => {
                assert(t.subrange(pre.len() + k, pre.len() + i) =~= s.subrange(k, i));
                let (line, next) = spec_line_at(s, k);
                if line.len() != 0 {
                    lemma_head_lines_shift(pre, s, next);
                }
            },
            None => {
                assert(t.subrange(pre.len() + k, t.len() as int) =~= s.subrange(
                    k,
                    s.len() as int,
                ));
                let (line, next) = spec_line_at(s, k);
                if line.len() != 0 {
                    lemma_head_lines_shift(pre, s, s.len() as int);
                }
            },
        }
    }
}

/// A head line as a peer sends it: never empty, no LF inside, no trailing CR.
pub open spec fn line_ok(l: Seq<u8>) -> bool {
    &&& l.len() > 0
    &&& l[l.len() - 1] != 13
    &&& forall|i: int| 0 <= i < l.len() ==> l[i] != 10
}

/// A blank line alone ends the head at once.
proof fn lemma_head_lines_blank(tail: Seq<u8>)
    ensures
        spec_head_lines(bs_crlf() + tail, 0) == (Seq::<Seq<u8>>::empty(), 2int),
{
    let s = bs_crlf() + tail;
    assert(s[0] == 13 && s[1] == 10);
    lemma_find_byte_some(s, 0, 10, 1);
    assert(s.subrange(0, 1) =~= seq![13u8]);
    assert(strip_cr(seq![13u8]) =~= Seq::<u8>::empty());
}

/// One well-formed line followed by CRLF reads as exactly that line, and the
/// rest of the head goes on after it.
proof fn lemma_head_lines_step(line: Seq<u8>, rest: Seq<u8>)
    requires
        line_ok(line),
    ensures
        spec_head_lines(line + bs_crlf() + rest, 0) == ({
            let (ls, bs) = spec_head_lines(rest, 0);
            (seq![line] + ls, bs + line.len() + 2)
        }),
{
    let s = line + bs_crlf() + rest;
    let n = line.len() as int;
    assert(s[n] == 13 && s[n + 1] == 10);
    assert(forall|j: int| 0 <= j < n + 1 ==> s[j] != 10);
    lemma_find_byte_some(s, 0, 10, n + 1);
    assert(s.subrange(0, n + 1) =~= line + seq![13u8]);
    assert(strip_cr(line + seq![13u8]) =~= line);
    let pre = line + bs_crlf();
    assert(s =~= pre + rest);
    lemma_head_lines_shift(pre, rest, 0);
}

/// Well-formed response headers: a name is nonempty and free of `':'`, CR
/// and LF; a value is free of CR and LF.
pub open spec fn header_pair_ok(p: (Seq<u8>, Seq<u8>)) -> bool {
    &&& p.0.len() > 0
    &&& forall|i: int| 0 <= i < p.0.len() ==> p.0[i] != 58 && p.0[i] != 13 && p.0[i] != 10
    &&& forall|i: int| 0 <= i < p.1.len() ==> p.1[i] != 13 && p.1[i] != 10
}

pub open spec fn headers_ok(h: Seq<(Seq<u8>, Seq<u8>)>) -> bool {
    forall|i: int| 0 <= i < h.len() ==> header_pair_ok(#[trigger] h[i])
}

/// The text of one header line, terminator excluded.
pub open spec fn header_text(p: (Seq<u8>, Seq<u8>)) -> Seq<u8> {
    p.0 + seq![58u8, 32] + p.1
}

/// The head lines that a header block encodes.
pub open spec fn header_texts(h: Seq<(Seq<u8>, Seq<u8>)>) -> Seq<Seq<u8>> {
    h.map_values(|p: (Seq<u8>, Seq<u8>)| header_text(p))
}

proof fn lemma_header_line_ok(p: (Seq<u8>, Seq<u8>))
    requires
        header_pair_ok(p),
    ensures
        line_ok(header_text(p)),
        spec_header_line(p) == header_text(p) + bs_crlf(),
{
    let l = header_text(p);
    if p.1.len() == 0 {
        assert(l[l.len() - 1] == 32);
    } else {
        assert(l[l.len() - 1] == p.1[p.1.len() - 1]);
    }
    assert(spec_header_line(p) =~= header_text(p) + bs_crlf());
}

/// The head of an encoded header block reads back as its header lines, and
/// the body starts right after the blank line — whatever follows it.
proof fn lemma_head_lines_of_headers(h: Seq<(Seq<u8>, Seq<u8>)>, tail: Seq<u8>)
    requires
        headers_ok(h),
    ensures
        spec_head_lines(spec_encode_headers(h) + bs_crlf() + tail, 0) == (
            header_texts(h),
            spec_encode_headers(h).len() + 2int,
        ),
    decreases h.len(),
{
    if h.len() == 0 {
        assert(spec_encode_headers(h) + bs_crlf() + tail =~= bs_crlf() + tail);
        lemma_head_lines_blank(tail);
        assert(header_texts(h) =~= Seq::<Seq<u8>>::empty());
    } else {
        let p = h.first();
        let line = header_text(p);
        lemma_header_line_ok(p);
        let rest = spec_encode_headers(h.drop_first()) + bs_crlf() + tail;
        assert(spec_encode_headers(h) + bs_crlf() + tail =~= line + bs_crlf() + rest);
        lemma_head_lines_step(line, rest);
        lemma_head_lines_of_headers(h.drop_first(), tail);
        assert(header_texts(h) =~= seq![line] + header_texts(h.drop_first()));
        assert(spec_encode_headers(h).len() == line.len() + 2 + spec_encode_headers(
            h.drop_first(),
        ).len());
    }
}

proof fn lemma_find_colon_sp_at(line: Seq<u8>, i: int)
    requires
        0 <= i,
        i + 2 <= line.len(),
        line[i] == 58,
        line[i + 1] == 32,
        forall|j: int| 0 <= j < i ==> line[j] != 58,
    ensures
        find_colon_sp(line, 0) == Some(i),
{
    lemma_find_colon_sp_from(line, 0, i);
}

proof fn lemma_find_colon_sp_from(line: Seq<u8>, from: int, i: int)
    requires
        0 <= from <= i,
        i + 2 <= line.len(),
        line[i] == 58,
        line[i + 1] == 32,
        forall|j: int| from <= j < i ==> line[j] != 58,
    ensures
        find_colon_sp(line, from) == Some(i),
    decreases i - from,
{
    if from < i {
        lemma_find_colon_sp_from(line, from + 1, i);
    }
}

/// An encoded header line parses back to exactly its pair.
proof fn lemma_header_text_parse(p: (Seq<u8>, Seq<u8>))
    requires
        header_pair_ok(p),
    ensures
        spec_header_of_line(header_text(p)) == Some(p),
{
    let l = header_text(p);
    let n = p.0.len() as int;
    assert(l[n] == 58 && l[n + 1] == 32);
    assert(forall|j: int| 0 <= j < n ==> l[j] == p.0[j] && l[j] != 58);
    lemma_find_colon_sp_at(l, n);
    assert(l.subrange(0, n) =~= p.0);
    assert(l.subrange(n + 2, l.len() as int) =~= p.1);
    assert(spec_header_of_line(l) == Some((p.0, p.1)));
    assert((p.0, p.1) == p);
}

/// An encoded header block parses back to exactly its pairs, in order.
proof fn lemma_headers_parse_back(h: Seq<(Seq<u8>, Seq<u8>)>)
    requires
        headers_ok(h),
    ensures
        spec_headers_of(header_texts(h)) == h,
    decreases h.len(),
{
    if h.len() == 0 {
        assert(header_texts(h) =~= Seq::<Seq<u8>>::empty());
    } else {
        let ts = header_texts(h);
        assert(ts.first() == header_text(h.first()));
        lemma_header_text_parse(h.first());
        assert(ts.drop_first() =~= header_texts(h.drop_first()));
        lemma_headers_parse_back(h.drop_first());
        assert(seq![h.first()] + h.drop_first() =~= h);
    }
}

/// The start-line token of a method.
pub open spec fn spec_method_token(m: Method) -> Seq<u8> {
    match m {
        Method::Get => bs_token_get(),
        Method::Post => bs_token_post(),
    }
}

/// The wire bytes of one request, as a well-behaved peer sends it.
pub open spec fn spec_encode_request(
    m: Method,
    path: Seq<u8>,
    h: Seq<(Seq<u8>, Seq<u8>)>,
    body: Seq<u8>,
) -> Seq<u8> {
    spec_method_token(m) + seq![32u8] + path + seq![32u8] + bs_http_version() + bs_crlf()
        + spec_encode_headers(h) + bs_crlf() + body
}

/// A request path as a well-behaved peer sends it: free of spaces (it must
/// stay one start-line token) and of line breaks.
pub open spec fn path_ok(p: Seq<u8>) -> bool {
    forall|i: int| 0 <= i < p.len() ==> p[i] != 32 && p[i] != 10 && p[i] != 13
}

/// A start line of three space-free tokens splits back into exactly them.
proof fn lemma_split_three(t0: Seq<u8>, t1: Seq<u8>, t2: Seq<u8>)
    requires
        forall|i: int| 0 <= i < t0.len() ==> t0[i] != 32,
        forall|i: int| 0 <= i < t1.len() ==> t1[i] != 32,
        forall|i: int| 0 <= i < t2.len() ==> t2[i] != 32,
    ensures
        spec_split_sp(t0 + seq![32u8] + t1 + seq![32u8] + t2, 0) == seq![t0, t1, t2],
{
    let line = t0 + seq![32u8] + t1 + seq![32u8] + t2;
    let n0 = t0.len() as int;
    assert(line[n0] == 32);
    assert(forall|j: int| 0 <= j < n0 ==> line[j] == t0[j] && line[j] != 32);
    lemma_find_byte_some(line, 0, 32, n0);
    assert(line.subrange(0, n0) =~= t0);
    let p1 = n0 + 1;
    let n1 = p1 + t1.len() as int;
    assert(line[n1] == 32);
    assert(forall|j: int| p1 <= j < n1 ==> line[j] == t1[j - p1] && line[j] != 32);
    lemma_find_byte_some(line, p1, 32, n1);
    assert(line.subrange(p1, n1) =~= t1);
    let p2 = n1 + 1;
    assert(forall|j: int| p2 <= j < line.len() ==> line[j] == t2[j - p2] && line[j] != 32);
    lemma_find_byte_none(line, p2, 32);
    assert(line.subrange(p2, line.len() as int) =~= t2);
    assert(spec_split_sp(line, 0) == seq![t0] + spec_split_sp(line, p1));
    assert(spec_split_sp(line, p1) == seq![t1] + spec_split_sp(line, p2));
    assert(spec_split_sp(line, p2) == seq![t2]);
    assert(seq![t0] + (seq![t1] + seq![t2]) =~= seq![t0, t1, t2]);
}

/// Round trip, request side: encoding a well-formed request — method `GET`
/// or `POST`, a space- and break-free path, well-formed headers, the body
/// announced by its exact `Content-Length` (or empty and unannounced) — and
/// decoding the bytes recovers exactly the method, path, header set and body.
pub proof fn lemma_request_round_trip(
    m: Method,
    path: Seq<u8>,
    h: Seq<(Seq<u8>, Seq<u8>)>,
    body: Seq<u8>,
)
    requires
        path_ok(path),
        headers_ok(h),
        body.len() <= usize::MAX,
        pair_lookup(h, bs_name_content_length()) == Some(dec_of(body.len() as nat)) || (body.len()
            == 0 && pair_lookup(h, bs_name_content_length()) == None::<Seq<u8>>),
    ensures
        spec_parse_request(spec_encode_request(m, path, h, body)) == Ok::<_, ParseErrorKind>(
            (m, path, h, body),
        ),
{
    let s = spec_encode_request(m, path, h, body);
    let t0 = spec_method_token(m);
    let sl = t0 + seq![32u8] + path + seq![32u8] + bs_http_version();
    let rest = spec_encode_headers(h) + bs_crlf() + body;
    assert(forall|i: int| 0 <= i < t0.len() ==> t0[i] != 32 && t0[i] != 10);
    assert(line_ok(sl)) by {
        assert(sl[sl.len() - 1] == 49);
        assert(forall|i: int| 0 <= i < sl.len() ==> sl[i] != 10);
    };
    assert(s =~= sl + bs_crlf() + rest);
    lemma_head_lines_step(sl, rest);
    lemma_head_lines_of_headers(h, body);
    let (lines, body_start) = spec_head_lines(s, 0);
    assert(lines == seq![sl] + header_texts(h));
    assert(lines[0] == sl);
    lemma_split_three(t0, path, bs_http_version());
    let toks = spec_split_sp(sl, 0);
    assert(toks == seq![t0, path, bs_http_version()]);
    assert(toks.len() == 3 && toks[0] == t0 && toks[1] == path);
    assert(spec_method_of(t0) == Some(m)) by {
        assert(bs_token_get().len() == 3 && bs_token_post().len() == 4);
    };
    assert(lines.drop_first() =~= header_texts(h));
    lemma_headers_parse_back(h);
    assert(body_start == sl.len() + 2 + spec_encode_headers(h).len() + 2);
    assert(body_start + body.len() == s.len());
    match pair_lookup(h, bs_name_content_length()) {
        Some(v) => {
            lemma_dec_of_val(body.len() as nat);
            assert(s.subrange(body_start, body_start + body.len() as int) =~= body);
        },
        None => {
            assert(body =~= Seq::<u8>::empty());
        },
    }
}

/// A request without `Content-Length` decodes to an empty body whatever
/// bytes trail the blank line on the connection, and those bytes change
/// nothing else about the decoded request.
pub proof fn lemma_trailing_bytes_ignored(
    m: Method,
    path: Seq<u8>,
    h: Seq<(Seq<u8>, Seq<u8>)>,
    tail: Seq<u8>,
)
    requires
        path_ok(path),
        headers_ok(h),
        pair_lookup(h, bs_name_content_length()) == None::<Seq<u8>>,
    ensures
        spec_parse_request(spec_encode_request(m, path, h, Seq::<u8>::empty()) + tail) == Ok::<
            _,
            ParseErrorKind,
        >((m, path, h, Seq::<u8>::empty())),
{
    let s = spec_encode_request(m, path, h, Seq::<u8>::empty()) + tail;
    let t0 = spec_method_token(m);
    let sl = t0 + seq![32u8] + path + seq![32u8] + bs_http_version();
    let rest = spec_encode_headers(h) + bs_crlf() + tail;
    assert(forall|i: int| 0 <= i < t0.len() ==> t0[i] != 32 && t0[i] != 10);
    assert(line_ok(sl)) by {
        assert(sl[sl.len() - 1] == 49);
        assert(forall|i: int| 0 <= i < sl.len() ==> sl[i] != 10);
    };
    assert(s =~= sl + bs_crlf() + rest);
    lemma_head_lines_step(sl, rest);
    lemma_head_lines_of_headers(h, tail);
    let (lines, body_start) = spec_head_lines(s, 0);
    assert(lines == seq![sl] + header_texts(h));
    assert(lines[0] == sl);
    lemma_split_three(t0, path, bs_http_version());
    assert(spec_method_of(t0) == Some(m)) by {
        assert(bs_token_get().len() == 3 && bs_token_post().len() == 4);
    };
    assert(lines.drop_first() =~= header_texts(h));
    lemma_headers_parse_back(h);
}

/// The status of a received status line, matched exactly.
pub open spec fn spec_status_of_line(line: Seq<u8>) -> Option<StatusCode> {
    if line == bs_status_prefix() + bs_reason_ok() {
        Some(StatusCode::Ok200)
    } else if line == bs_status_prefix() + bs_reason_created() {
        Some(StatusCode::Created201)
    } else if line == bs_status_prefix() + bs_reason_not_found() {
        Some(StatusCode::NotFound404)
    } else {
        None
    }
}

/// The strict peer-side subset decoder for responses: the status line must
/// match one of the three known statuses exactly; headers and the
/// `Content-Length`-framed body are read as the request decoder reads them.
pub open spec fn spec_decode_response(s: Seq<u8>) -> Option<
    (StatusCode, Seq<(Seq<u8>, Seq<u8>)>, Seq<u8>),
> {
    let (lines, body_start) = spec_head_lines(s, 0);
    if lines.len() == 0 {
        None
    } else {
        match spec_status_of_line(lines[0]) {
            None => None,
            Some(st) => {
                let hdrs = spec_headers_of(lines.drop_first());
                match pair_lookup(hdrs, bs_name_content_length()) {
                    None => Some((st, hdrs, Seq::empty())),
                    Some(v) => {
                        if !(v.len() > 0 && all_digits(v) && dec_val(v) <= usize::MAX) {
                            None
                        } else {
                            let n = dec_val(v) as int;
                            if body_start + n > s.len() {
                                None
                            } else {
                                Some((st, hdrs, s.subrange(body_start, body_start + n)))
                            }
                        }
                    },
                }
            },
        }
    }
}

/// Round trip: encoding a response whose headers are well formed and whose
/// body is announced by its exact `Content-Length` (or is empty and
/// unannounced), then decoding the bytes with the strict peer-side decoder,
/// yields the same status, headers and body that were set.
pub proof fn lemma_response_round_trip(
    status: StatusCode,
    h: Seq<(Seq<u8>, Seq<u8>)>,
    body: Seq<u8>,
)
    requires
        headers_ok(h),
        body.len() <= usize::MAX,
        pair_lookup(h, bs_name_content_length()) == Some(dec_of(body.len() as nat)) || (body.len()
            == 0 && pair_lookup(h, bs_name_content_length()) == None::<Seq<u8>>),
    ensures
        spec_decode_response(spec_encode_response(status, h, body)) == Some((status, h, body)),
{
    let s = spec_encode_response(status, h, body);
    let sl = bs_status_prefix() + spec_status_text(status);
    let rest = spec_encode_headers(h) + bs_crlf() + body;
    assert(line_ok(sl)) by {
        assert(forall|i: int| 0 <= i < sl.len() ==> sl[i] != 10);
        assert(sl[sl.len() - 1] != 13);
    };
    assert(s =~= sl + bs_crlf() + rest);
    lemma_head_lines_step(sl, rest);
    lemma_head_lines_of_headers(h, body);
    let (lines, body_start) = spec_head_lines(s, 0);
    assert(lines == seq![sl] + header_texts(h));
    assert(lines[0] == sl);
    assert(spec_status_of_line(sl) == Some(status));
    assert(lines.drop_first() =~= header_texts(h));
    lemma_headers_parse_back(h);
    assert(body_start == sl.len() + 2 + spec_encode_headers(h).len() + 2);
    assert(body_start + body.len() == s.len());
    match pair_lookup(h, bs_name_content_length()) {
        Some(v) => {
            assert(v == dec_of(body.len() as nat));
            lemma_dec_of_val(body.len() as nat);
            assert(s.subrange(body_start, body_start + body.len() as int) =~= body);
        },
        None => {
            assert(body =~= Seq::<u8>::empty());
        },
    }
}

} // verus!

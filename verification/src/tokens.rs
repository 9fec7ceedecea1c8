//! The literal byte strings of the wire protocol and of the routing table,
//! each as a spec-level sequence paired with an executable constructor.

use vstd::prelude::*;

verus! {

/// Bytes of `"GET"`.
pub open spec fn bs_token_get() -> Seq<u8> {
    seq![71u8, 69, 84]
}

pub fn token_get_vec() -> (r: Vec<u8>)
    ensures
        r@ == bs_token_get(),
{
    let mut v: Vec<u8> = Vec::new();
    v.push(71);
    v.push(69);
    v.push(84);
    proof {
        assert(v@ =~= bs_token_get());
    }
    v
}

/// Bytes of `"POST"`.
pub open spec fn bs_token_post() -> Seq<u8> {
    seq![80u8, 79, 83, 84]
}

pub fn token_post_vec() -> (r: Vec<u8>)
    ensures
        r@ == bs_token_post(),
{
    let mut v: Vec<u8> = Vec::new();
    v.push(80);
    v.push(79);
    v.push(83);
    v.push(84);
    proof {
        assert(v@ =~= bs_token_post());
    }
    v
}

/// Bytes of `"Content-Length"`.
pub open spec fn bs_name_content_length() -> Seq<u8> {
    seq![67u8, 111, 110, 116, 101, 110, 116, 45, 76, 101, 110, 103, 116, 104]
}

pub fn name_content_length_vec() -> (r: Vec<u8>)
    ensures
        r@ == bs_name_content_length(),
{
    let mut v: Vec<u8> = Vec::new();
    v.push(67);
    v.push(111);
    v.push(110);
    v.push(116);
    v.push(101);
    v.push(110);
    v.push(116);
    v.push(45);
    v.push(76);
    v.push(101);
    v.push(110);
    v.push(103);
    v.push(116);
    v.push(104);
    proof {
        assert(v@ =~= bs_name_content_length());
    }
    v
}

/// Bytes of `"User-Agent"`.
pub open spec fn bs_name_user_agent() -> Seq<u8> {
    seq![85u8, 115, 101, 114, 45, 65, 103, 101, 110, 116]
}

pub fn name_user_agent_vec() -> (r: Vec<u8>)
    ensures
        r@ == bs_name_user_agent(),
{
    let mut v: Vec<u8> = Vec::new();
    v.push(85);
    v.push(115);
    v.push(101);
    v.push(114);
    v.push(45);
    v.push(65);
    v.push(103);
    v.push(101);
    v.push(110);
    v.push(116);
    proof {
        assert(v@ =~= bs_name_user_agent());
    }
    v
}

/// Bytes of `"Content-Type"`.
pub open spec fn bs_name_content_type() -> Seq<u8> {
    seq![67u8, 111, 110, 116, 101, 110, 116, 45, 84, 121, 112, 101]
}

pub fn name_content_type_vec() -> (r: Vec<u8>)
    ensures
        r@ == bs_name_content_type(),
{
    let mut v: Vec<u8> = Vec::new();
    v.push(67);
    v.push(111);
    v.push(110);
    v.push(116);
    v.push(101);
    v.push(110);
    v.push(116);
    v.push(45);
    v.push(84);
    v.push(121);
    v.push(112);
    v.push(101);
    proof {
        assert(v@ =~= bs_name_content_type());
    }
    v
}

/// Bytes of `"text/plain"`.
pub open spec fn bs_mime_text_plain() -> Seq<u8> {
    seq![116u8, 101, 120, 116, 47, 112, 108, 97, 105, 110]
}

pub fn mime_text_plain_vec() -> (r: Vec<u8>)
    ensures
        r@ == bs_mime_text_plain(),
{
    let mut v: Vec<u8> = Vec::new();
    v.push(116);
    v.push(101);
    v.push(120);
    v.push(116);
    v.push(47);
    v.push(112);
    v.push(108);
    v.push(97);
    v.push(105);
    v.push(110);
    proof {
        assert(v@ =~= bs_mime_text_plain());
    }
    v
}

/// Bytes of `"application/octet-stream"`.
pub open spec fn bs_mime_octet_stream() -> Seq<u8> {
    seq![97u8, 112, 112, 108, 105, 99, 97, 116, 105, 111, 110, 47, 111, 99, 116, 101, 116, 45, 115, 116, 114, 101, 97, 109]
}

pub fn mime_octet_stream_vec() -> (r: Vec<u8>)
    ensures
        r@ == bs_mime_octet_stream(),
{
    let mut v: Vec<u8> = Vec::new();
    v.push(97);
    v.push(112);
    v.push(112);
    v.push(108);
    v.push(105);
    v.push(99);
    v.push(97);
    v.push(116);
    v.push(105);
    v.push(111);
    v.push(110);
    v.push(47);
    v.push(111);
    v.push(99);
    v.push(116);
    v.push(101);
    v.push(116);
    v.push(45);
    v.push(115);
    v.push(116);
    v.push(114);
    v.push(101);
    v.push(97);
    v.push(109);
    proof {
        assert(v@ =~= bs_mime_octet_stream());
    }
    v
}

/// Bytes of `"/"`.
pub open spec fn bs_path_root() -> Seq<u8> {
    seq![47u8]
}

pub fn path_root_vec() -> (r: Vec<u8>)
    ensures
        r@ == bs_path_root(),
{
    let mut v: Vec<u8> = Vec::new();
    v.push(47);
    proof {
        assert(v@ =~= bs_path_root());
    }
    v
}

/// Bytes of `"/echo/"`.
pub open spec fn bs_prefix_echo() -> Seq<u8> {
    seq![47u8, 101, 99, 104, 111, 47]
}

pub fn prefix_echo_vec() -> (r: Vec<u8>)
    ensures
        r@ == bs_prefix_echo(),
{
    let mut v: Vec<u8> = Vec::new();
    v.push(47);
    v.push(101);
    v.push(99);
    v.push(104);
    v.push(111);
    v.push(47);
    proof {
        assert(v@ =~= bs_prefix_echo());
    }
    v
}

/// Bytes of `"/user-agent"`.
pub open spec fn bs_path_user_agent() -> Seq<u8> {
    seq![47u8, 117, 115, 101, 114, 45, 97, 103, 101, 110, 116]
}

pub fn path_user_agent_vec() -> (r: Vec<u8>)
    ensures
        r@ == bs_path_user_agent(),
{
    let mut v: Vec<u8> = Vec::new();
    v.push(47);
    v.push(117);
    v.push(115);
    v.push(101);
    v.push(114);
    v.push(45);
    v.push(97);
    v.push(103);
    v.push(101);
    v.push(110);
    v.push(116);
    proof {
        assert(v@ =~= bs_path_user_agent());
    }
    v
}

/// Bytes of `"/files/"`.
pub open spec fn bs_prefix_files() -> Seq<u8> {
    seq![47u8, 102, 105, 108, 101, 115, 47]
}

pub fn prefix_files_vec() -> (r: Vec<u8>)
    ensures
        r@ == bs_prefix_files(),
{
    let mut v: Vec<u8> = Vec::new();
    v.push(47);
    v.push(102);
    v.push(105);
    v.push(108);
    v.push(101);
    v.push(115);
    v.push(47);
    proof {
        assert(v@ =~= bs_prefix_files());
    }
    v
}

/// Bytes of `"HTTP/1.1 "`.
pub open spec fn bs_status_prefix() -> Seq<u8> {
    seq![72u8, 84, 84, 80, 47, 49, 46, 49, 32]
}

pub fn status_prefix_vec() -> (r: Vec<u8>)
    ensures
        r@ == bs_status_prefix(),
{
    let mut v: Vec<u8> = Vec::new();
    v.push(72);
    v.push(84);
    v.push(84);
    v.push(80);
    v.push(47);
    v.push(49);
    v.push(46);
    v.push(49);
    v.push(32);
    proof {
        assert(v@ =~= bs_status_prefix());
    }
    v
}

/// Bytes of `"200 OK"`.
pub open spec fn bs_reason_ok() -> Seq<u8> {
    seq![50u8, 48, 48, 32, 79, 75]
}

pub fn reason_ok_vec() -> (r: Vec<u8>)
    ensures
        r@ == bs_reason_ok(),
{
    let mut v: Vec<u8> = Vec::new();
    v.push(50);
    v.push(48);
    v.push(48);
    v.push(32);
    v.push(79);
    v.push(75);
    proof {
        assert(v@ =~= bs_reason_ok());
    }
    v
}

/// Bytes of `"201 Created"`.
pub open spec fn bs_reason_created() -> Seq<u8> {
    seq![50u8, 48, 49, 32, 67, 114, 101, 97, 116, 101, 100]
}

pub fn reason_created_vec() -> (r: Vec<u8>)
    ensures
        r@ == bs_reason_created(),
{
    let mut v: Vec<u8> = Vec::new();
    v.push(50);
    v.push(48);
    v.push(49);
    v.push(32);
    v.push(67);
    v.push(114);
    v.push(101);
    v.push(97);
    v.push(116);
    v.push(101);
    v.push(100);
    proof {
        assert(v@ =~= bs_reason_created());
    }
    v
}

/// Bytes of `"404 Not Found"`.
pub open spec fn bs_reason_not_found() -> Seq<u8> {
    seq![52u8, 48, 52, 32, 78, 111, 116, 32, 70, 111, 117, 110, 100]
}

pub fn reason_not_found_vec() -> (r: Vec<u8>)
    ensures
        r@ == bs_reason_not_found(),
{
    let mut v: Vec<u8> = Vec::new();
    v.push(52);
    v.push(48);
    v.push(52);
    v.push(32);
    v.push(78);
    v.push(111);
    v.push(116);
    v.push(32);
    v.push(70);
    v.push(111);
    v.push(117);
    v.push(110);
    v.push(100);
    proof {
        assert(v@ =~= bs_reason_not_found());
    }
    v
}

/// Bytes of `"HTTP/1.1"`, the version token of a request start line.
pub open spec fn bs_http_version() -> Seq<u8> {
    seq![72u8, 84, 84, 80, 47, 49, 46, 49]
}

/// Bytes of `"\r\n"`.
pub open spec fn bs_crlf() -> Seq<u8> {
    seq![13u8, 10]
}

pub fn crlf_vec() -> (r: Vec<u8>)
    ensures
        r@ == bs_crlf(),
{
    let mut v: Vec<u8> = Vec::new();
    v.push(13);
    v.push(10);
    proof {
        assert(v@ =~= bs_crlf());
    }
    v
}

} // verus!

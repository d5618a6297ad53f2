//! The outbound side of an exchange: a response under construction.

use vstd::prelude::*;
use vstd::string::StringSliceAdditionalSpecFns;
use vstd::utf8::encode_utf8;
use crate::bytes::{decimal, push_decimal};
use crate::route::pairs;

verus! {

/// A response: status code, content type, further headers, and body. A handler
/// builds it; it is turned into wire bytes once, when the handler is done.
#[derive(Debug)]
pub struct Response {
    pub code: u16,
    pub content_type: Option<String>,
    pub headers: Vec<(String, String)>,
    pub payload: Vec<u8>,
}

/// The reason phrase that goes with a status code.
pub open spec fn reason(code: u16) -> Seq<char> {
    if code == 200 {
        "OK"@
    } else if code == 201 {
        "Created"@
    } else if code == 204 {
        "No Content"@
    } else if code == 301 {
        "Moved Permanently"@
    } else if code == 302 {
        "Found"@
    } else if code == 304 {
        "Not Modified"@
    } else if code == 400 {
        "Bad Request"@
    } else if code == 401 {
        "Unauthorized"@
    } else if code == 403 {
        "Forbidden"@
    } else if code == 404 {
        "Not Found"@
    } else if code == 405 {
        "Method Not Allowed"@
    } else if code == 500 {
        "Internal Server Error"@
    } else if code == 501 {
        "Not Implemented"@
    } else if code == 503 {
        "Service Unavailable"@
    } else {
        "Unknown"@
    }
}

/// The bytes of a status line.
pub open spec fn status_line(code: u16) -> Seq<u8> {
    encode_utf8("HTTP/1.1 "@) + decimal(code as nat) + seq![32u8] + encode_utf8(reason(code))
        + seq![13u8, 10u8]
}

/// The bytes of one header line.
pub open spec fn header_line(name: Seq<char>, value: Seq<char>) -> Seq<u8> {
    encode_utf8(name) + seq![58u8, 32u8] + encode_utf8(value) + seq![13u8, 10u8]
}

/// The bytes of a list of headers, one line each, in order.
pub open spec fn header_lines(headers: Seq<(Seq<char>, Seq<char>)>) -> Seq<u8>
    decreases headers.len(),
{
    if headers.len() == 0 {
        Seq::empty()
    } else {
        header_lines(headers.drop_last()) + header_line(headers.last().0, headers.last().1)
    }
}

/// The bytes of a response on the wire: the status line; the content type,
/// if one is set; the further headers; the length of the body; an empty
/// line; the body.
pub open spec fn wire_bytes(
    code: u16,
    content_type: Option<Seq<char>>,
    headers: Seq<(Seq<char>, Seq<char>)>,
    payload: Seq<u8>,
) -> Seq<u8> {
    status_line(code) + (match content_type {
        Some(t) => header_line("Content-Type"@, t),
        None => Seq::empty(),
    }) + header_lines(headers) + encode_utf8("Content-Length: "@) + decimal(payload.len())
        + seq![13u8, 10u8, 13u8, 10u8] + payload
}

fn reason_phrase(code: u16) -> (r: &'static str)
    ensures
        r@ == reason(code),
{
    if code == 200 {
        "OK"
    } else if code == 201 {
        "Created"
    } else if code == 204 {
        "No Content"
    } else if code == 301 {
        "Moved Permanently"
    } else if code == 302 {
        "Found"
    } else if code == 304 {
        "Not Modified"
    } else if code == 400 {
        "Bad Request"
    } else if code == 401 {
        "Unauthorized"
    } else if code == 403 {
        "Forbidden"
    } else if code == 404 {
        "Not Found"
    } else if code == 405 {
        "Method Not Allowed"
    } else if code == 500 {
        "Internal Server Error"
    } else if code == 501 {
        "Not Implemented"
    } else if code == 503 {
        "Service Unavailable"
    } else {
        "Unknown"
    }
}

fn push_header(out: &mut Vec<u8>, name: &str, value: &str)
    ensures
        final(out)@ == old(out)@ + header_line(name@, value@),
{
    out.extend_from_slice(name.as_bytes());
    out.push(58u8);
    out.push(32u8);
    out.extend_from_slice(value.as_bytes());
    out.push(13u8);
    out.push(10u8);
    assert(out@ =~= old(out)@ + header_line(name@, value@));
}

/// The body of a built-in error response: a label, then the detail echoed.
pub open spec fn error_body(label: Seq<char>, detail: Seq<char>) -> Seq<u8> {
    vstd::utf8::encode_utf8(label) + vstd::utf8::encode_utf8(detail)
}

impl Response {
    /// An empty response: status 200, no content type, no headers, no body.
    pub fn new() -> (r: Response)
        ensures
            r.code == 200,
            r.content_type is None,
            r.headers@.len() == 0,
            r.payload@.len() == 0,
    {
        Response { code: 200, content_type: None, headers: Vec::new(), payload: Vec::new() }
    }

    /// Sets the status code.
    pub fn set_code(&mut self, code: u16)
        ensures
            final(self).code == code,
            final(self).content_type == old(self).content_type,
            final(self).headers == old(self).headers,
            final(self).payload == old(self).payload,
    {
        self.code = code;
    }

    /// Sets the content type, replacing an earlier one.
    pub fn set_content_type(&mut self, ctype: &str)
        ensures
            final(self).content_type matches Some(t) && t@ == ctype@,
            final(self).code == old(self).code,
            final(self).headers == old(self).headers,
            final(self).payload == old(self).payload,
    {
        self.content_type = Some(ctype.to_owned());
    }

    /// Adds a header after those already there.
    pub fn add_header(&mut self, name: &str, value: &str)
        ensures
            final(self).headers@.len() == old(self).headers@.len() + 1,
            final(self).headers@.drop_last() == old(self).headers@,
            final(self).headers@.last().0@ == name@,
            final(self).headers@.last().1@ == value@,
            final(self).code == old(self).code,
            final(self).content_type == old(self).content_type,
            final(self).payload == old(self).payload,
    {
        self.headers.push((name.to_owned(), value.to_owned()));
        assert(self.headers@.drop_last() =~= old(self).headers@);
    }

    /// Appends bytes to the body.
    pub fn append(&mut self, bytes: &[u8])
        ensures
            final(self).payload@ == old(self).payload@ + bytes@,
            final(self).code == old(self).code,
            final(self).content_type == old(self).content_type,
            final(self).headers == old(self).headers,
    {
        self.payload.extend_from_slice(bytes);
    }

    /// Appends the UTF-8 bytes of a text to the body.
    pub fn append_str(&mut self, text: &str)
        ensures
            final(self).payload@ == old(self).payload@ + text.spec_bytes(),
            final(self).code == old(self).code,
            final(self).content_type == old(self).content_type,
            final(self).headers == old(self).headers,
    {
        self.payload.extend_from_slice(text.as_bytes());
    }

    /// The bytes of the response on the wire.
    pub open spec fn wire(self) -> Seq<u8> {
        wire_bytes(
            self.code,
            match self.content_type {
                Some(t) => Some(t@),
                None => None,
            },
            pairs(self.headers@),
            self.payload@,
        )
    }

    /// Writes the response out as the bytes that go on the wire.
    pub fn gen_output(&self) -> (out: Vec<u8>)
        ensures
            out@ == self.wire(),
    {
        let mut out: Vec<u8> = Vec::new();
        out.extend_from_slice("HTTP/1.1 ".as_bytes());
        push_decimal(&mut out, self.code as usize);
        out.push(32u8);
        out.extend_from_slice(reason_phrase(self.code).as_bytes());
        out.push(13u8);
        out.push(10u8);
        assert(out@ =~= status_line(self.code));
        match &self.content_type {
            Some(t) => {
                push_header(&mut out, "Content-Type", t.as_str());
            },
            None => {
                assert(out@ =~= status_line(self.code) + Seq::<u8>::empty());
            },
        }
        let ghost start = out@;
        let mut i: usize = 0;
        proof {
            assert(pairs(self.headers@).take(0) =~= Seq::<(Seq<char>, Seq<char>)>::empty());
            assert(out@ =~= start + header_lines(pairs(self.headers@).take(0)));
        }
        while i < self.headers.len()
            invariant
                i <= self.headers.len(),
                out@ == start + header_lines(pairs(self.headers@).take(i as int)),
            decreases self.headers.len() - i,
        {
            let ghost before = out@;
            proof {
                let t = pairs(self.headers@).take(i + 1);
                assert(t.drop_last() =~= pairs(self.headers@).take(i as int));
                assert(t.last() == pairs(self.headers@)[i as int]);
            }
            push_header(&mut out, self.headers[i].0.as_str(), self.headers[i].1.as_str());
            proof {
                assert(out@ =~= start + (header_lines(pairs(self.headers@).take(i as int))
                    + header_line(self.headers@[i as int].0@, self.headers@[i as int].1@)));
            }
            i = i + 1;
        }
        proof {
            assert(pairs(self.headers@).take(self.headers.len() as int) =~= pairs(self.headers@));
        }
        let ghost mid = out@;
        out.extend_from_slice("Content-Length: ".as_bytes());
        push_decimal(&mut out, self.payload.len());
        out.push(13u8);
        out.push(10u8);
        out.push(13u8);
        out.push(10u8);
        out.extend_from_slice(self.payload.as_slice());
        proof {
            assert(out@ =~= mid + encode_utf8("Content-Length: "@) + decimal(
                self.payload@.len(),
            ) + seq![13u8, 10u8, 13u8, 10u8] + self.payload@);
        }
        out
    }

    /// What the built-in error responses have in common: the given status,
    /// plain text, and a body made of a label and the detail.
    pub open spec fn is_error_page(self, code: u16, label: Seq<char>, detail: Seq<char>) -> bool {
        &&& self.code == code
        &&& self.content_type matches Some(t) && t@ == "text/plain"@
        &&& self.headers@.len() == 0
        &&& self.payload@ == error_body(label, detail)
    }

    fn error_page(code: u16, label: &str, detail: &str) -> (r: Response)
        ensures
            r.is_error_page(code, label@, detail@),
    {
        let mut r = Response::new();
        r.set_code(code);
        r.set_content_type("text/plain");
        r.append_str(label);
        r.append_str(detail);
        assert(r.payload@ =~= error_body(label@, detail@));
        r
    }

    /// The answer to a request that is not allowed: status 403, echoing the path.
    pub fn err_403(path: &str) -> (r: Response)
        ensures
            r.is_error_page(403, "forbidden: "@, path@),
    {
        Response::error_page(403, "forbidden: ", path)
    }

    /// The answer to a request that no route takes: status 404, echoing the path.
    pub fn err_404(path: &str) -> (r: Response)
        ensures
            r.is_error_page(404, "not found: "@, path@),
    {
        Response::error_page(404, "not found: ", path)
    }

    /// The answer when serving a request failed: status 500, echoing the
    /// description of the failure.
    pub fn err_500(what: &str) -> (r: Response)
        ensures
            r.is_error_page(500, "internal server error: "@, what@),
    {
        Response::error_page(500, "internal server error: ", what)
    }
}

} // verus!

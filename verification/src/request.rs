//! The inbound side of an exchange: a request, and how it is read from the
//! bytes of a connection.
//!
//! A request is a head and a body. The head ends at the first empty line. Its
//! first line is `METHOD target HTTP/1.x`, with single spaces; every further
//! line is `name: value`. A `content-length` header says how long the body
//! is; without one the body is whatever follows the head.

use vstd::prelude::*;
use vstd::utf8::{decode_utf8, valid_utf8};
use crate::bytes::{
    all_digits, byte_views, copy_range, decimal_of, decimal_value, find, find_from, is_digits,
    lemma_find_bounds, lowered, split, split_on, to_lower, trim, trimmed,
};
use crate::method::{method_of, same_bytes, Method};
use crate::route::{integer_value, pairs, to_integer};
use crate::template::ParamType;
use crate::text::chars_of;

verus! {

/// A request as the handlers see it. `headers` holds the header names in
/// lower case. `params` is filled by the router once a route has matched.
#[derive(Debug)]
pub struct Request {
    pub method: Method,
    pub path: String,
    pub headers: Vec<(String, String)>,
    pub payload: Vec<u8>,
    pub params: Option<Vec<(String, String)>>,
}

/// What the bytes received so far amount to, as a mathematical value.
pub enum ParseView {
    /// A whole request.
    Complete {
        method: Method,
        path: Seq<char>,
        headers: Seq<(Seq<char>, Seq<char>)>,
        payload: Seq<u8>,
    },
    /// The start of a request; more bytes are needed.
    Incomplete,
    /// Not a request, whatever may follow.
    Malformed,
}

/// What the bytes received so far amount to.
#[derive(Debug)]
pub enum Parsed {
    /// A whole request.
    Complete(Request),
    /// The start of a request; more bytes are needed.
    Incomplete,
    /// Not a request, whatever may follow.
    Malformed,
}

impl View for Parsed {
    type V = ParseView;

    open spec fn view(&self) -> ParseView {
        match self {
            Parsed::Complete(req) => ParseView::Complete {
                method: req.method,
                path: req.path@,
                headers: pairs(req.headers@),
                payload: req.payload@,
            },
            Parsed::Incomplete => ParseView::Incomplete,
            Parsed::Malformed => ParseView::Malformed,
        }
    }
}

/// The value that a list of names and values holds for a name: that of the
/// first entry with the name.
pub open spec fn value_of(list: Seq<(Seq<char>, Seq<char>)>, name: Seq<char>) -> Option<Seq<char>>
    decreases list.len(),
{
    if list.len() == 0 {
        None
    } else if list[0].0 == name {
        Some(list[0].1)
    } else {
        value_of(list.skip(1), name)
    }
}

/// The lower-case form of an ASCII letter; any other character as it is.
pub open spec fn lower_char(c: char) -> char {
    if 'A' <= c && c <= 'Z' {
        ((c as u8) + 32) as char
    } else {
        c
    }
}

/// A text with its ASCII letters in lower case.
pub open spec fn lower_text(s: Seq<char>) -> Seq<char> {
    Seq::new(s.len(), |i: int| lower_char(s[i]))
}

fn lookup<'a>(list: &'a Vec<(String, String)>, name: &str) -> (r: Option<&'a String>)
    ensures
        match r {
            Some(v) => value_of(pairs(list@), name@) == Some(v@),
            None => value_of(pairs(list@), name@) is None,
        },
{
    let wanted = name.to_owned();
    let mut i: usize = 0;
    proof {
        assert(pairs(list@).skip(0) =~= pairs(list@));
    }
    while i < list.len()
        invariant
            i <= list.len(),
            wanted@ == name@,
            value_of(pairs(list@), name@) == value_of(pairs(list@).skip(i as int), name@),
        decreases list.len() - i,
    {
        proof {
            assert(pairs(list@).skip(i as int)[0] == pairs(list@)[i as int]);
            assert(pairs(list@).skip(i as int).skip(1) =~= pairs(list@).skip(i + 1));
        }
        if list[i].0 == wanted {
            return Some(&list[i].1);
        }
        i = i + 1;
    }
    None
}

fn lower_name(name: &str) -> (r: String)
    ensures
        r@ == lower_text(name@),
{
    let chars = chars_of(name);
    let mut r = String::new();
    let mut i: usize = 0;
    while i < chars.len()
        invariant
            i <= chars.len(),
            chars@ == name@,
            r@ == lower_text(name@).take(i as int),
        decreases chars.len() - i,
    {
        let c: char = chars[i];
        let l: char = if 'A' <= c && c <= 'Z' {
            ((c as u8) + 32) as char
        } else {
            c
        };
        crate::text::push_char(&mut r, l);
        assert(r@ =~= lower_text(name@).take(i + 1));
        i = i + 1;
    }
    assert(lower_text(name@).take(chars.len() as int) =~= lower_text(name@));
    r
}

/// Carriage return, line feed.
pub open spec fn crlf() -> Seq<u8> {
    seq![13u8, 10u8]
}

/// The empty line that ends a head.
pub open spec fn head_end() -> Seq<u8> {
    seq![13u8, 10u8, 13u8, 10u8]
}

/// `HTTP/1.0` or `HTTP/1.1`.
pub open spec fn is_version(v: Seq<u8>) -> bool {
    v == seq![72u8, 84u8, 84u8, 80u8, 47u8, 49u8, 46u8, 48u8] || v == seq![
        72u8,
        84u8,
        84u8,
        80u8,
        47u8,
        49u8,
        46u8,
        49u8,
    ]
}

/// The method and the path that a request line names.
pub open spec fn request_line(line: Seq<u8>) -> Option<(Method, Seq<char>)> {
    let parts = split(line, seq![32u8]);
    if parts.len() == 3 && parts[0].len() > 0 && parts[1].len() > 0 && is_version(parts[2])
        && valid_utf8(parts[1]) {
        Some((method_of(parts[0]), decode_utf8(parts[1])))
    } else {
        None
    }
}

/// A header name: one or more visible ASCII characters.
pub open spec fn is_header_name(s: Seq<u8>) -> bool {
    s.len() > 0 && forall|i: int| 0 <= i < s.len() ==> 33 <= #[trigger] s[i] <= 126
}

/// The name, in lower case, and the value, without the blanks around it, that
/// a header line holds.
pub open spec fn header_fields(line: Seq<u8>) -> Option<(Seq<u8>, Seq<u8>)> {
    let k = find(line, seq![58u8]);
    if 0 <= k < line.len() && is_header_name(line.take(k)) {
        Some((lowered(line.take(k)), trim(line.skip(k + 1))))
    } else {
        None
    }
}

/// The name and the value of a header line as text.
pub open spec fn header_of(line: Seq<u8>) -> Option<(Seq<char>, Seq<char>)> {
    match header_fields(line) {
        Some((name, value)) => if valid_utf8(name) && valid_utf8(value) {
            Some((decode_utf8(name), decode_utf8(value)))
        } else {
            None
        },
        None => None,
    }
}

/// Whether every line is a header line.
pub open spec fn all_headers(lines: Seq<Seq<u8>>) -> bool {
    forall|i: int| 0 <= i < lines.len() ==> header_of(#[trigger] lines[i]) is Some
}

/// `content-length`.
pub open spec fn length_name() -> Seq<u8> {
    seq![99u8, 111u8, 110u8, 116u8, 101u8, 110u8, 116u8, 45u8, 108u8, 101u8, 110u8, 103u8, 116u8, 104u8]
}

/// The value of the first `content-length` header among the lines.
pub open spec fn length_field(lines: Seq<Seq<u8>>) -> Option<Seq<u8>>
    decreases lines.len(),
{
    if lines.len() == 0 {
        None
    } else {
        match header_fields(lines[0]) {
            Some((name, value)) => if name == length_name() {
                Some(value)
            } else {
                length_field(lines.skip(1))
            },
            None => length_field(lines.skip(1)),
        }
    }
}

/// What a buffer of received bytes amounts to.
pub open spec fn parse_request(buf: Seq<u8>) -> ParseView {
    let k = find(buf, head_end());
    if k < 0 || k + 4 > buf.len() {
        ParseView::Incomplete
    } else {
        let lines = split(buf.take(k), crlf());
        let rest = buf.skip(k + 4);
        match request_line(lines[0]) {
            Some((method, path)) => if all_headers(lines.skip(1)) {
                let headers = Seq::new(
                    (lines.len() - 1) as nat,
                    |i: int| header_of(lines[i + 1]).unwrap(),
                );
                match length_field(lines.skip(1)) {
                    None => ParseView::Complete { method, path, headers, payload: rest },
                    Some(v) => if !is_digits(v) {
                        ParseView::Malformed
                    } else if rest.len() < decimal_value(v) {
                        ParseView::Incomplete
                    } else {
                        ParseView::Complete {
                            method,
                            path,
                            headers,
                            payload: rest.take(decimal_value(v) as int),
                        }
                    },
                }
            } else {
                ParseView::Malformed
            },
            None => ParseView::Malformed,
        }
    }
}

/// Turns bytes into text: `String::from_utf8` of the standard library, which
/// succeeds exactly on well-formed UTF-8 and then holds the text that the
/// bytes encode.
#[verifier::external_body]
pub(crate) fn text_of(bytes: Vec<u8>) -> (r: Option<String>)
    ensures
        r is Some <==> valid_utf8(bytes@),
        r matches Some(s) ==> s@ == decode_utf8(bytes@),
{
    match String::from_utf8(bytes) {
        Ok(s) => Some(s),
        Err(_) => None,
    }
}

fn version_ok(v: &[u8]) -> (r: bool)
    ensures
        r == is_version(v@),
{
    let a: Vec<u8> = vec![72u8, 84u8, 84u8, 80u8, 47u8, 49u8, 46u8, 48u8];
    let b: Vec<u8> = vec![72u8, 84u8, 84u8, 80u8, 47u8, 49u8, 46u8, 49u8];
    proof {
        assert(a@ =~= seq![72u8, 84u8, 84u8, 80u8, 47u8, 49u8, 46u8, 48u8]);
        assert(b@ =~= seq![72u8, 84u8, 84u8, 80u8, 47u8, 49u8, 46u8, 49u8]);
    }
    same_bytes(v, a.as_slice()) || same_bytes(v, b.as_slice())
}

fn read_request_line(line: &[u8]) -> (r: Option<(Method, String)>)
    ensures
        match r {
            Some((m, p)) => request_line(line@) == Some((m, p@)),
            None => request_line(line@) is None,
        },
{
    let space: Vec<u8> = vec![32u8];
    proof {
        assert(space@ =~= seq![32u8]);
    }
    let mut parts = split_on(line, space.as_slice());
    if parts.len() != 3 {
        return None;
    }
    if parts[0].len() == 0 || parts[1].len() == 0 || !version_ok(parts[2].as_slice()) {
        return None;
    }
    let method = Method::from_token(parts[0].as_slice());
    let target = parts.swap_remove(1);
    match text_of(target) {
        Some(path) => Some((method, path)),
        None => None,
    }
}

fn header_name_ok(s: &[u8]) -> (r: bool)
    ensures
        r == is_header_name(s@),
{
    let mut i: usize = 0;
    while i < s.len()
        invariant
            i <= s.len(),
            forall|j: int| 0 <= j < i ==> 33 <= #[trigger] s@[j] <= 126,
        decreases s.len() - i,
    {
        if !(33 <= s[i] && s[i] <= 126) {
            assert(!(33 <= s@[i as int] <= 126));
            return false;
        }
        i = i + 1;
    }
    s.len() > 0
}

fn read_header_fields(line: &[u8]) -> (r: Option<(Vec<u8>, Vec<u8>)>)
    ensures
        match r {
            Some((n, v)) => header_fields(line@) == Some((n@, v@)),
            None => header_fields(line@) is None,
        },
{
    let colon: Vec<u8> = vec![58u8];
    proof {
        assert(colon@ =~= seq![58u8]);
        assert(line@.skip(0) =~= line@);
        lemma_find_bounds(line@, seq![58u8]);
    }
    let k: usize = find_from(line, 0, colon.as_slice());
    if k == line.len() {
        return None;
    }
    let name = copy_range(line, 0, k);
    proof {
        assert(name@ =~= line@.take(k as int));
    }
    if !header_name_ok(name.as_slice()) {
        return None;
    }
    let raw = copy_range(line, k + 1, line.len());
    proof {
        assert(raw@ =~= line@.skip(k + 1));
    }
    Some((to_lower(name.as_slice()), trimmed(raw.as_slice())))
}

fn length_name_bytes() -> (r: Vec<u8>)
    ensures
        r@ == length_name(),
{
    let r: Vec<u8> = vec![
        99u8,
        111u8,
        110u8,
        116u8,
        101u8,
        110u8,
        116u8,
        45u8,
        108u8,
        101u8,
        110u8,
        103u8,
        116u8,
        104u8,
    ];
    assert(r@ =~= length_name());
    r
}

impl Request {
    /// A request for `path` with no headers, no body and no parameters.
    pub fn new(method: Method, path: &str) -> (r: Request)
        ensures
            r.method == method,
            r.path@ == path@,
            r.headers@.len() == 0,
            r.payload@.len() == 0,
            r.params is None,
    {
        Request {
            method,
            path: path.to_owned(),
            headers: Vec::new(),
            payload: Vec::new(),
            params: None,
        }
    }

    /// The parameters that the router extracted, as a mathematical value;
    /// empty before a route has matched.
    pub open spec fn params_view(&self) -> Seq<(Seq<char>, Seq<char>)> {
        match self.params {
            Some(p) => pairs(p@),
            None => Seq::empty(),
        }
    }

    /// The text of a path parameter, as the path held it.
    pub fn param(&self, name: &str) -> (r: Option<&String>)
        ensures
            match r {
                Some(v) => value_of(self.params_view(), name@) == Some(v@),
                None => value_of(self.params_view(), name@) is None,
            },
    {
        match &self.params {
            Some(list) => lookup(list, name),
            None => None,
        }
    }

    /// A path parameter read as an integer: `None` where there is no such
    /// parameter, where its text is no integer, or where the number does not
    /// fit 64 bits.
    pub fn param_int(&self, name: &str) -> (r: Option<i64>)
        ensures
            match r {
                Some(n) => value_of(self.params_view(), name@) matches Some(v) && crate::route::conforms(
                    ParamType::Integer,
                    v,
                ) && n == integer_value(v),
                None => value_of(self.params_view(), name@) matches Some(v) ==> !crate::route::conforms(
                    ParamType::Integer,
                    v,
                ) || integer_value(v) < i64::MIN || integer_value(v) > i64::MAX,
            },
    {
        match self.param(name) {
            Some(text) => to_integer(&chars_of(text.as_str())),
            None => None,
        }
    }

    /// The value of a header. Header names do not tell upper case from lower.
    pub fn header(&self, name: &str) -> (r: Option<&String>)
        ensures
            match r {
                Some(v) => value_of(pairs(self.headers@), lower_text(name@)) == Some(v@),
                None => value_of(pairs(self.headers@), lower_text(name@)) is None,
            },
    {
        let wanted = lower_name(name);
        lookup(&self.headers, wanted.as_str())
    }

    /// Reads a request from the bytes received so far. The result says
    /// whether they hold a whole request, only the start of one, or
    /// something that is no request. A request read this way has no
    /// parameters yet.
    pub fn parse(buf: &[u8]) -> (r: Parsed)
        ensures
            r@ == parse_request(buf@),
            r matches Parsed::Complete(req) ==> req.params is None,
    {
        let end: Vec<u8> = vec![13u8, 10u8, 13u8, 10u8];
        let eol: Vec<u8> = vec![13u8, 10u8];
        proof {
            assert(end@ =~= head_end());
            assert(eol@ =~= crlf());
            assert(buf@.skip(0) =~= buf@);
            lemma_find_bounds(buf@, head_end());
        }
        let k: usize = find_from(buf, 0, end.as_slice());
        if k == buf.len() {
            return Parsed::Incomplete;
        }
        assert(k + 4 <= buf.len());
        let head = copy_range(buf, 0, k);
        proof {
            assert(head@ =~= buf@.take(k as int));
        }
        let lines = split_on(head.as_slice(), eol.as_slice());
        let ghost all = byte_views(lines@);
        let (method, path) = match read_request_line(lines[0].as_slice()) {
            Some(mp) => mp,
            None => {
                return Parsed::Malformed;
            },
        };
        let wanted = length_name_bytes();
        let mut headers: Vec<(String, String)> = Vec::new();
        let mut length: Option<Vec<u8>> = None;
        let mut i: usize = 1;
        proof {
            assert(all.skip(1).take(0) =~= Seq::<Seq<u8>>::empty());
        }
        while i < lines.len()
            invariant
                1 <= i <= lines.len(),
                all == byte_views(lines@),
                all == split(buf@.take(k as int), crlf()),
                find(buf@, head_end()) == k,
                k + 4 <= buf.len(),
                request_line(all[0]) is Some,
                wanted@ == length_name(),
                headers.len() == i - 1,
                forall|j: int|
                    0 <= j < i - 1 ==> header_of(#[trigger] all[j + 1]) == Some(pairs(headers@)[j]),
                match length {
                    Some(v) => length_field(all.skip(1)) == Some(v@),
                    None => length_field(all.skip(1)) == length_field(all.skip(i as int)),
                },
            decreases lines.len() - i,
        {
            let ghost before = pairs(headers@);
            proof {
                assert(all.skip(i as int)[0] == all[i as int]);
                assert(all.skip(i as int).skip(1) =~= all.skip(i + 1));
            }
            match read_header_fields(lines[i].as_slice()) {
                Some((name, value)) => {
                    if length.is_none() && same_bytes(name.as_slice(), wanted.as_slice()) {
                        length = Some(copy_range(value.as_slice(), 0, value.len()));
                        proof {
                            assert(length.unwrap()@ =~= value@);
                        }
                    }
                    match text_of(name) {
                        Some(n) => match text_of(value) {
                            Some(v) => {
                                headers.push((n, v));
                                proof {
                                    assert(pairs(headers@) =~= before.push((n@, v@)));
                                }
                            },
                            None => {
                                assert(header_of(all.skip(1)[i - 1]) is None);
                                return Parsed::Malformed;
                            },
                        },
                        None => {
                            assert(header_of(all.skip(1)[i - 1]) is None);
                            return Parsed::Malformed;
                        },
                    }
                },
                None => {
                    assert(header_of(all.skip(1)[i - 1]) is None);
                    return Parsed::Malformed;
                },
            }
            i = i + 1;
        }
        proof {
            assert forall|j: int| 0 <= j < all.skip(1).len() implies header_of(
                #[trigger] all.skip(1)[j],
            ) is Some by {
                assert(all.skip(1)[j] == all[j + 1]);
            }
            assert(pairs(headers@) =~= Seq::new(
                (all.len() - 1) as nat,
                |i: int| header_of(all[i + 1]).unwrap(),
            ));
            assert(all.skip(lines.len() as int) =~= Seq::<Seq<u8>>::empty());
        }
        let from: usize = k + 4;
        let ghost declared: Option<Seq<u8>> = length_field(all.skip(1));
        let payload = match length {
            None => copy_range(buf, from, buf.len()),
            Some(v) => {
                if !all_digits(v.as_slice()) {
                    return Parsed::Malformed;
                }
                match decimal_of(v.as_slice()) {
                    None => {
                        return Parsed::Incomplete;
                    },
                    Some(n) => {
                        if buf.len() - from < n {
                            return Parsed::Incomplete;
                        }
                        copy_range(buf, from, from + n)
                    },
                }
            },
        };
        proof {
            let rest = buf@.skip(k + 4);
            assert(buf@.subrange(from as int, buf.len() as int) =~= rest);
            if let Some(v) = declared {
                let n = decimal_value(v);
                assert(buf@.subrange(from as int, from + n) =~= rest.take(n as int));
            }
        }
        Parsed::Complete(Request { method, path, headers, payload, params: None })
    }
}

} // verus!

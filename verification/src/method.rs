//! HTTP request methods.

use vstd::prelude::*;

verus! {

/// The method of a request. `NoImpl` stands for every method that the
/// framework does not know.
#[derive(Clone, Copy, Debug, PartialEq, Eq, Hash, Structural)]
pub enum Method {
    Get,
    Put,
    Post,
    Delete,
    Head,
    Options,
    Patch,
    NoImpl,
}

/// The method that a request-line token names, in upper case as the
/// protocol writes it.
pub open spec fn method_of(token: Seq<u8>) -> Method {
    if token == seq![71u8, 69u8, 84u8] {
        Method::Get
    } else if token == seq![80u8, 85u8, 84u8] {
        Method::Put
    } else if token == seq![80u8, 79u8, 83u8, 84u8] {
        Method::Post
    } else if token == seq![68u8, 69u8, 76u8, 69u8, 84u8, 69u8] {
        Method::Delete
    } else if token == seq![72u8, 69u8, 65u8, 68u8] {
        Method::Head
    } else if token == seq![79u8, 80u8, 84u8, 73u8, 79u8, 78u8, 83u8] {
        Method::Options
    } else if token == seq![80u8, 65u8, 84u8, 67u8, 72u8] {
        Method::Patch
    } else {
        Method::NoImpl
    }
}

/// Whether two byte strings are equal.
pub fn same_bytes(a: &[u8], b: &[u8]) -> (r: bool)
    ensures
        r == (a@ == b@),
{
    if a.len() != b.len() {
        return false;
    }
    let mut i: usize = 0;
    while i < a.len()
        invariant
            i <= a.len(),
            a.len() == b.len(),
            forall|j: int| 0 <= j < i ==> a@[j] == b@[j],
        decreases a.len() - i,
    {
        if a[i] != b[i] {
            return false;
        }
        i = i + 1;
    }
    assert(a@ =~= b@);
    true
}

impl Method {
    /// The method that a request-line token names.
    pub fn from_token(token: &[u8]) -> (m: Method)
        ensures
            m == method_of(token@),
    {
        let get: Vec<u8> = vec![71u8, 69u8, 84u8];
        let put: Vec<u8> = vec![80u8, 85u8, 84u8];
        let post: Vec<u8> = vec![80u8, 79u8, 83u8, 84u8];
        let delete: Vec<u8> = vec![68u8, 69u8, 76u8, 69u8, 84u8, 69u8];
        let head: Vec<u8> = vec![72u8, 69u8, 65u8, 68u8];
        let options: Vec<u8> = vec![79u8, 80u8, 84u8, 73u8, 79u8, 78u8, 83u8];
        let patch: Vec<u8> = vec![80u8, 65u8, 84u8, 67u8, 72u8];
        proof {
            assert(get@ =~= seq![71u8, 69u8, 84u8]);
            assert(put@ =~= seq![80u8, 85u8, 84u8]);
            assert(post@ =~= seq![80u8, 79u8, 83u8, 84u8]);
            assert(delete@ =~= seq![68u8, 69u8, 76u8, 69u8, 84u8, 69u8]);
            assert(head@ =~= seq![72u8, 69u8, 65u8, 68u8]);
            assert(options@ =~= seq![79u8, 80u8, 84u8, 73u8, 79u8, 78u8, 83u8]);
            assert(patch@ =~= seq![80u8, 65u8, 84u8, 67u8, 72u8]);
        }
        if same_bytes(token, get.as_slice()) {
            Method::Get
        } else if same_bytes(token, put.as_slice()) {
            Method::Put
        } else if same_bytes(token, post.as_slice()) {
            Method::Post
        } else if same_bytes(token, delete.as_slice()) {
            Method::Delete
        } else if same_bytes(token, head.as_slice()) {
            Method::Head
        } else if same_bytes(token, options.as_slice()) {
            Method::Options
        } else if same_bytes(token, patch.as_slice()) {
            Method::Patch
        } else {
            Method::NoImpl
        }
    }
}

} // verus!

//! The request head, as the HTTP parser of the `httparse` crate reads it.
use vstd::prelude::*;
use crate::request::HeaderView;

verus! {

/// What the HTTP parser gives for a complete request head: the length of
/// the head in bytes, the method, the path, the minor version and the headers.
pub struct RequestHead {
    pub len: usize,
    pub method: Option<String>,
    pub path: Option<String>,
    pub version: Option<u8>,
    pub headers: Vec<(String, Vec<u8>)>,
}

impl View for RequestHead {
    type V = (usize, Option<Seq<char>>, Option<Seq<char>>, Option<u8>, Seq<HeaderView>);

    open spec fn view(&self) -> Self::V {
        (self.len, self.method.deep_view(), self.path.deep_view(), self.version, self.headers.deep_view())
    }
}

/// The complete request head that `httparse::Request::parse` finds at the
/// start of the bytes, with room for 64 headers; `None` where it reports the
/// head partial or reports an error.
pub uninterp spec fn parsed_head(buf: Seq<u8>) -> Option<(usize, Option<Seq<char>>, Option<Seq<char>>, Option<u8>, Seq<(Seq<char>, Seq<u8>)>)>;

/// Calls `httparse::Request::parse` on `buf` with 64 header slots. Trusted:
/// the result is `parsed_head(buf)`, and a complete head is no longer than
/// the bytes (the parser returns the offset at which it stopped reading).
#[verifier::external_body]
pub(crate) fn parse_request_head(buf: &[u8]) -> (r: Option<RequestHead>)
    ensures
        match r {
            Some(h) => parsed_head(buf@) == Some(h@) && h.len <= buf@.len(),
            None => parsed_head(buf@) is None,
        },
{
    let mut slots = [httparse::EMPTY_HEADER; 64];
    let mut req = httparse::Request::new(&mut slots);
    match req.parse(buf) {
        Ok(httparse::Status::Complete(len)) => Some(RequestHead {
            len,
            method: req.method.map(|m| m.to_string()),
            path: req.path.map(|p| p.to_string()),
            version: req.version,
            headers: req.headers.iter().map(|h| (h.name.to_string(), h.value.to_vec())).collect(),
        }),
        Ok(httparse::Status::Partial) => None,
        Err(_) => None,
    }
}

} // verus!

//! Helpers on requests: finding headers and reading cookies.
use vstd::prelude::*;
use crate::request::{HeaderView, ParsedRequest};
use crate::text::{
    ci_eq, chars_eq, chars_of, copy_chars, find_char, first_index_of, split_char, split_on,
    str_ci_eq, string_from_chars, trim, trim_chars, utf8_chars, utf8_chars_of,
};

verus! {

/// The position of the first header whose name equals `name` without ASCII case.
pub open spec fn first_header(hs: Seq<HeaderView>, name: Seq<char>) -> Option<int> {
    if exists|i: int| 0 <= i < hs.len() && ci_eq(#[trigger] hs[i].0, name) {
        Some(
            choose|i: int|
                0 <= i < hs.len() && ci_eq(hs[i].0, name) && forall|j: int|
                    0 <= j < i ==> !ci_eq(#[trigger] hs[j].0, name),
        )
    } else {
        None
    }
}

proof fn lemma_first_header(hs: Seq<HeaderView>, name: Seq<char>, i: int)
    requires
        0 <= i < hs.len(),
        ci_eq(hs[i].0, name),
        forall|j: int| 0 <= j < i ==> !ci_eq(#[trigger] hs[j].0, name),
    ensures
        first_header(hs, name) == Some(i),
{
    let c = choose|k: int|
        0 <= k < hs.len() && ci_eq(hs[k].0, name) && forall|j: int|
            0 <= j < k ==> !ci_eq(#[trigger] hs[j].0, name);
    assert(0 <= c < hs.len() && ci_eq(hs[c].0, name) && forall|j: int|
        0 <= j < c ==> !ci_eq(#[trigger] hs[j].0, name));
    if c < i {
        assert(!ci_eq(hs[c].0, name));
    } else if c > i {
        assert(!ci_eq(hs[i].0, name));
    }
}

/// The position of the first header named `name`, compared without ASCII case.
pub fn find_header(headers: &Vec<(String, Vec<u8>)>, name: &str) -> (r: Option<usize>)
    ensures
        match r {
            Some(i) => first_header(headers.deep_view(), name@) == Some(i as int) && i
                < headers.len(),
            None => first_header(headers.deep_view(), name@) is None,
        },
{
    let ghost hv = headers.deep_view();
    let mut i: usize = 0;
    while i < headers.len()
        invariant
            i <= headers.len(),
            hv == headers.deep_view(),
            forall|j: int| 0 <= j < i ==> !ci_eq(#[trigger] hv[j].0, name@),
        decreases headers.len() - i,
    {
        assert(hv[i as int] == (headers@[i as int].0@, headers@[i as int].1@));
        if str_ci_eq(headers[i].0.as_str(), name) {
            proof {
                lemma_first_header(hv, name@, i as int);
            }
            return Some(i);
        }
        i = i + 1;
    }
    None
}

/// `str::splitn(2, c)`: the text before the first `c`, and the text after
/// it if there is one.
pub open spec fn split_once_at(s: Seq<char>, c: char) -> (Seq<char>, Option<Seq<char>>) {
    match first_index_of(s, c) {
        Some(i) => (s.take(i), Some(s.skip(i + 1))),
        None => (s, None),
    }
}

pub(crate) proof fn lemma_first_index(s: Seq<char>, c: char, i: int)
    requires
        0 <= i < s.len(),
        s[i] == c,
        forall|j: int| 0 <= j < i ==> s[j] != c,
    ensures
        first_index_of(s, c) == Some(i),
{
    let k = choose|x: int| 0 <= x < s.len() && s[x] == c && forall|j: int| 0 <= j < x ==> s[j] != c;
    assert(0 <= k < s.len() && s[k] == c && forall|j: int| 0 <= j < k ==> s[j] != c);
    if k < i {
        assert(s[k] != c);
    } else if k > i {
        assert(s[i] != c);
    }
}

/// Splits at the first `c`, as `str::split_once` and `str::splitn(2, c)` do.
pub fn split_once_char(v: &[char], c: char) -> (r: (Vec<char>, Option<Vec<char>>))
    ensures
        r.0@ == split_once_at(v@, c).0,
        match r.1 {
            Some(x) => split_once_at(v@, c).1 == Some(x@),
            None => split_once_at(v@, c).1 is None,
        },
{
    match find_char(v, c) {
        Some(i) => {
            proof {
                lemma_first_index(v@, c, i as int);
            }
            (copy_chars(v, 0, i), Some(copy_chars(v, i + 1, v.len())))
        },
        None => {
            assert(v@.subrange(0, v.len() as int) =~= v@);
            (copy_chars(v, 0, v.len()), None)
        },
    }
}

/// Looking for cookie `name` in the `;`-separated pairs of one `Cookie`
/// header: `Some(r)` ends the search with `r` (the value, or `None` where
/// the pair named `name` has no `=`); `None` where no pair is named `name`.
pub open spec fn cookie_in_pairs(pairs: Seq<Seq<char>>, name: Seq<char>) -> Option<Option<Seq<char>>>
    decreases pairs.len(),
{
    if pairs.len() == 0 {
        None
    } else {
        let (key, value) = split_once_at(trim(pairs[0]), '=');
        if key == name {
            Some(value)
        } else {
            cookie_in_pairs(pairs.drop_first(), name)
        }
    }
}

/// The value of cookie `name` in the headers: the `Cookie` headers are
/// looked at in order; the search ends with no value at one whose value is
/// not UTF-8, and at the first pair named `name` (with no value if it has no `=`).
pub open spec fn cookie_in_headers(hs: Seq<HeaderView>, name: Seq<char>) -> Option<Seq<char>>
    decreases hs.len(),
{
    if hs.len() == 0 {
        None
    } else if ci_eq(hs[0].0, "cookie"@) {
        match utf8_chars(hs[0].1) {
            None => None,
            Some(s) => match cookie_in_pairs(split_on(s, ';'), name) {
                Some(r) => r,
                None => cookie_in_headers(hs.drop_first(), name),
            },
        }
    } else {
        cookie_in_headers(hs.drop_first(), name)
    }
}

/// The value of cookie `name` sent with the request.
pub open spec fn cookie_of(req: crate::request::RequestView, name: Seq<char>) -> Option<Seq<char>> {
    match req.headers {
        None => None,
        Some(hs) => cookie_in_headers(hs, name),
    }
}

/// The characters of an optional character vector.
pub open spec fn opt_chars(o: Option<Vec<char>>) -> Option<Seq<char>> {
    match o {
        Some(v) => Some(v@),
        None => None,
    }
}

fn cookie_in_header_value(value: &[char], name: &[char]) -> (r: Option<Option<Vec<char>>>)
    ensures
        r is None ==> cookie_in_pairs(split_on(value@, ';'), name@) is None,
        r is Some ==> cookie_in_pairs(split_on(value@, ';'), name@) == Some(opt_chars(r->0)),
{
    let pairs = split_char(value, ';');
    let ghost ps = split_on(value@, ';');
    let mut i: usize = 0;
    assert(ps.skip(0) =~= ps);
    while i < pairs.len()
        invariant
            i <= pairs.len(),
            ps == split_on(value@, ';'),
            pairs@.len() == ps.len(),
            forall|k: int| 0 <= k < pairs@.len() ==> #[trigger] pairs@[k]@ == ps[k],
            cookie_in_pairs(ps, name@) == cookie_in_pairs(ps.skip(i as int), name@),
        decreases pairs.len() - i,
    {
        assert(ps.skip(i as int).drop_first() =~= ps.skip(i + 1));
        assert(ps.skip(i as int)[0] == ps[i as int]);
        let t = trim_chars(pairs[i].as_slice());
        let (key, v) = split_once_char(t.as_slice(), '=');
        if chars_eq(key.as_slice(), name) {
            assert(opt_chars(v) == split_once_at(trim(ps[i as int]), '=').1);
            return Some(v);
        }
        i = i + 1;
    }
    None
}

/// The value of cookie `name` in the request's `Cookie` headers.
pub fn get_cookie(req: &ParsedRequest, name: &str) -> (r: Option<String>)
    ensures
        match r {
            Some(s) => cookie_of(req@, name@) == Some(s@),
            None => cookie_of(req@, name@) is None,
        },
{
    let headers = match &req.headers {
        Some(h) => h,
        None => {
            return None;
        },
    };
    let name_chars = chars_of(name);
    let ghost hv = headers.deep_view();
    let mut i: usize = 0;
    assert(hv.skip(0) =~= hv);
    while i < headers.len()
        invariant
            i <= headers.len(),
            hv == headers.deep_view(),
            req@.headers == Some(hv),
            name_chars@ == name@,
            cookie_in_headers(hv, name@) == cookie_in_headers(hv.skip(i as int), name@),
        decreases headers.len() - i,
    {
        assert(hv.skip(i as int).drop_first() =~= hv.skip(i + 1));
        assert(hv.skip(i as int)[0] == hv[i as int]);
        assert(hv[i as int] == (headers@[i as int].0@, headers@[i as int].1@));
        if str_ci_eq(headers[i].0.as_str(), "cookie") {
            match utf8_chars_of(headers[i].1.as_slice()) {
                None => {
                    return None;
                },
                Some(s) => {
                    match cookie_in_header_value(s.as_slice(), name_chars.as_slice()) {
                        Some(Some(v)) => {
                            return Some(string_from_chars(v.as_slice()));
                        },
                        Some(None) => {
                            return None;
                        },
                        None => {},
                    }
                },
            }
        }
        i = i + 1;
    }
    None
}

} // verus!

//! Uploads: the parts of a `multipart/form-data` body that carry files,
//! and the names the files are stored under.
use vstd::prelude::*;
use vstd::utf8::{decode_utf8, valid_utf8};
use crate::text::{
    chars_of, copy_bytes, copy_chars, find_char, first_index_of, has_prefix, render_decimal, split_char,
    split_on, string_from_chars, trim, trim_chars, chars_starts_with, bytes_of, digits_value,
    parse_unsigned, parse_usize, ascii_chars, decimal,
};

verus! {

// ---------------------------------------------------------------------------
// Searching
// ---------------------------------------------------------------------------

/// `n` occurs in `s` at position `i`.
pub open spec fn occurs_at<T>(s: Seq<T>, n: Seq<T>, i: int) -> bool {
    0 <= i && i + n.len() <= s.len() && s.subrange(i, i + n.len()) == n
}

#[verifier::opaque]
/// The position of the first occurrence of `n` in `s`, if any.
pub open spec fn first_occurrence<T>(s: Seq<T>, n: Seq<T>) -> Option<int> {
    if exists|i: int| occurs_at(s, n, i) {
        Some(choose|i: int| occurs_at(s, n, i) && forall|j: int| 0 <= j < i ==> !occurs_at(s, n, j))
    } else {
        None
    }
}

proof fn lemma_first_occurrence<T>(s: Seq<T>, n: Seq<T>, i: int)
    requires
        occurs_at(s, n, i),
        forall|j: int| 0 <= j < i ==> !occurs_at(s, n, j),
    ensures
        first_occurrence(s, n) == Some(i),
{
    reveal(first_occurrence);
    let c = choose|k: int| occurs_at(s, n, k) && forall|j: int| 0 <= j < k ==> !occurs_at(s, n, j);
    assert(occurs_at(s, n, c) && forall|j: int| 0 <= j < c ==> !occurs_at(s, n, j));
    if c < i {
        assert(!occurs_at(s, n, c));
    } else if c > i {
        assert(!occurs_at(s, n, i));
    }
}

fn bytes_match_at(h: &[u8], n: &[u8], i: usize) -> (r: bool)
    requires
        i + n.len() <= h.len(),
    ensures
        r == occurs_at(h@, n@, i as int),
{
    let mut k: usize = 0;
    while k < n.len()
        invariant
            i + n.len() <= h.len(),
            k <= n.len(),
            forall|j: int| 0 <= j < k ==> h@[i + j] == n@[j],
        decreases n.len() - k,
    {
        if h[i + k] != n[k] {
            assert(h@.subrange(i as int, i + n.len())[k as int] != n@[k as int]);
            return false;
        }
        k = k + 1;
    }
    assert(h@.subrange(i as int, i + n.len()) =~= n@);
    true
}

/// The position of the first occurrence of the non-empty `n` in `h`.
pub fn find_subslice(h: &[u8], n: &[u8]) -> (r: Option<usize>)
    requires
        n.len() > 0,
    ensures
        match r {
            Some(i) => first_occurrence(h@, n@) == Some(i as int) && i + n.len() <= h.len(),
            None => first_occurrence(h@, n@) is None,
        },
{
    if n.len() > h.len() {
        proof {
            reveal(first_occurrence);
        }
        return None;
    }
    let mut i: usize = 0;
    while i <= h.len() - n.len()
        invariant
            0 < n.len() <= h.len(),
            i <= h.len() - n.len() + 1,
            forall|j: int| 0 <= j < i ==> !occurs_at(h@, n@, j),
        decreases h.len() - i,
    {
        if bytes_match_at(h, n, i) {
            proof {
                lemma_first_occurrence(h@, n@, i as int);
            }
            return Some(i);
        }
        i = i + 1;
    }
    proof {
        reveal(first_occurrence);
    }
    None
}

fn chars_match_at(h: &[char], n: &[char], i: usize) -> (r: bool)
    requires
        i + n.len() <= h.len(),
    ensures
        r == occurs_at(h@, n@, i as int),
{
    let mut k: usize = 0;
    while k < n.len()
        invariant
            i + n.len() <= h.len(),
            k <= n.len(),
            forall|j: int| 0 <= j < k ==> h@[i + j] == n@[j],
        decreases n.len() - k,
    {
        if h[i + k] != n[k] {
            assert(h@.subrange(i as int, i + n.len())[k as int] != n@[k as int]);
            return false;
        }
        k = k + 1;
    }
    assert(h@.subrange(i as int, i + n.len()) =~= n@);
    true
}

fn find_chars(h: &[char], n: &[char]) -> (r: Option<usize>)
    requires
        n.len() > 0,
    ensures
        match r {
            Some(i) => first_occurrence(h@, n@) == Some(i as int) && i + n.len() <= h.len(),
            None => first_occurrence(h@, n@) is None,
        },
{
    if n.len() > h.len() {
        proof {
            reveal(first_occurrence);
        }
        return None;
    }
    let mut i: usize = 0;
    while i <= h.len() - n.len()
        invariant
            0 < n.len() <= h.len(),
            i <= h.len() - n.len() + 1,
            forall|j: int| 0 <= j < i ==> !occurs_at(h@, n@, j),
        decreases h.len() - i,
    {
        if chars_match_at(h, n, i) {
            proof {
                lemma_first_occurrence(h@, n@, i as int);
            }
            return Some(i);
        }
        i = i + 1;
    }
    proof {
        reveal(first_occurrence);
    }
    None
}

// ---------------------------------------------------------------------------
// Boundary and file name
// ---------------------------------------------------------------------------

/// `str::trim_start_matches` with a non-empty string: every leading copy of `p` removed.
pub open spec fn strip_all_prefix(s: Seq<char>, p: Seq<char>) -> Seq<char>
    decreases s.len(),
{
    if p.len() > 0 && has_prefix(s, p) {
        strip_all_prefix(s.skip(p.len() as int), p)
    } else {
        s
    }
}

/// The value of the first `;`-separated parameter that starts with
/// `boundary=` once trimmed, with every leading `boundary=` removed.
pub open spec fn boundary_in(params: Seq<Seq<char>>) -> Option<Seq<char>>
    decreases params.len(),
{
    if params.len() == 0 {
        None
    } else {
        let t = trim(params[0]);
        if has_prefix(t, "boundary="@) {
            Some(strip_all_prefix(t, "boundary="@))
        } else {
            boundary_in(params.drop_first())
        }
    }
}

fn strip_all_prefix_chars(s: &[char], p: &[char]) -> (r: Vec<char>)
    requires
        p.len() > 0,
    ensures
        r@ == strip_all_prefix(s@, p@),
{
    let mut i: usize = 0;
    assert(s@.skip(0) =~= s@);
    while p.len() <= s.len() - i && chars_match_at(s, p, i)
        invariant
            p.len() > 0,
            i <= s.len(),
            strip_all_prefix(s@, p@) == strip_all_prefix(s@.skip(i as int), p@),
        decreases s.len() - i,
    {
        assert(s@.skip(i as int).take(p.len() as int) =~= s@.subrange(i as int, i + p.len()));
        assert(s@.skip(i as int).skip(p.len() as int) =~= s@.skip(i + p.len()));
        i = i + p.len();
    }
    proof {
        if p.len() <= s.len() - i {
            assert(s@.skip(i as int).take(p.len() as int) =~= s@.subrange(i as int, i + p.len()));
        }
    }
    copy_chars(s, i, s.len())
}

/// The boundary parameter of a `Content-Type` value.
pub fn extract_boundary(content_type: &str) -> (r: Option<String>)
    ensures
        match r {
            Some(b) => boundary_in(split_on(content_type@, ';')) == Some(b@),
            None => boundary_in(split_on(content_type@, ';')) is None,
        },
{
    let chars = chars_of(content_type);
    let params = split_char(chars.as_slice(), ';');
    let ghost ps = split_on(content_type@, ';');
    let key = chars_of("boundary=");
    let mut i: usize = 0;
    assert(ps.skip(0) =~= ps);
    while i < params.len()
        invariant
            i <= params.len(),
            ps == split_on(content_type@, ';'),
            key@ == "boundary="@,
            params@.len() == ps.len(),
            forall|k: int| 0 <= k < params@.len() ==> #[trigger] params@[k]@ == ps[k],
            boundary_in(ps) == boundary_in(ps.skip(i as int)),
        decreases params.len() - i,
    {
        assert(ps.skip(i as int).drop_first() =~= ps.skip(i + 1));
        assert(ps.skip(i as int)[0] == ps[i as int]);
        let t = trim_chars(params[i].as_slice());
        if chars_starts_with(t.as_slice(), key.as_slice()) {
            proof {
                reveal_strlit("boundary=");
            }
            let v = strip_all_prefix_chars(t.as_slice(), key.as_slice());
            return Some(string_from_chars(v.as_slice()));
        }
        i = i + 1;
    }
    None
}

/// What `String::from_utf8_lossy` makes of the bytes: their decoding, each
/// invalid sequence replaced by U+FFFD.
pub uninterp spec fn utf8_lossy(b: Seq<u8>) -> Seq<char>;

/// Calls `String::from_utf8_lossy`. Trusted: the result is
/// `utf8_lossy(b)`, and valid UTF-8 is decoded as it is.
#[verifier::external_body]
fn string_from_utf8_lossy(b: &[u8]) -> (s: String)
    ensures
        s@ == utf8_lossy(b@),
        valid_utf8(b@) ==> s@ == decode_utf8(b@),
{
    String::from_utf8_lossy(b).into_owned()
}

/// The text of part headers: their decoding where they are valid UTF-8,
/// else what `String::from_utf8_lossy` makes of them.
pub open spec fn header_text(b: Seq<u8>) -> Seq<char> {
    if valid_utf8(b) {
        decode_utf8(b)
    } else {
        utf8_lossy(b)
    }
}

/// The text `filename="`.
pub open spec fn filename_key() -> Seq<char> {
    "filename=\""@
}

#[verifier::opaque]
/// The file name in the text of part headers: what follows the first
/// `filename="`, up to the next `"`.
pub open spec fn filename_in(s: Seq<char>) -> Option<Seq<char>> {
    match first_occurrence(s, filename_key()) {
        None => None,
        Some(p) => {
            let rest = s.skip(p + filename_key().len());
            match first_index_of(rest, '"') {
                None => None,
                Some(e) => Some(rest.take(e)),
            }
        },
    }
}

/// `filename="` has its only `"` at its end.
proof fn lemma_key_shape()
    ensures
        filename_key().len() == 10,
        filename_key()[9] == '"',
        forall|x: int| 0 <= x < 9 ==> #[trigger] filename_key()[x] != '"',
{
    let key = filename_key();
    assert(key =~= seq!['f', 'i', 'l', 'e', 'n', 'a', 'm', 'e', '=', '"']) by {
        reveal_strlit("filename=\"");
    }
}

proof fn lemma_key_not_before(k: Seq<char>, rest: Seq<char>, j: int)
    requires
        forall|i: int| !occurs_at(k, filename_key(), i),
        0 <= j < k.len(),
    ensures
        !occurs_at(k + filename_key() + rest, filename_key(), j),
{
    lemma_key_shape();
    let key = filename_key();
    let s = k + key + rest;
    let m = k.len() as int;
    if j + 10 <= m {
        assert(s.subrange(j, j + 10) =~= k.subrange(j, j + 10));
        assert(!occurs_at(k, key, j));
    } else {
        let x = j + 9 - m;
        assert(0 <= x < 9);
        assert(s[j + 9] == key[x]);
        assert(key[x] != '"');
        if occurs_at(s, key, j) {
            assert(s.subrange(j, j + 10)[9] == s[j + 9]);
        }
    }
}

proof fn lemma_key_first_after(k: Seq<char>, rest: Seq<char>)
    requires
        forall|j: int| !occurs_at(k, filename_key(), j),
    ensures
        first_occurrence(k + filename_key() + rest, filename_key()) == Some(k.len() as int),
{
    lemma_key_shape();
    let key = filename_key();
    let s = k + key + rest;
    let m = k.len() as int;
    assert(s.subrange(m, m + 10) =~= key);
    assert forall|j: int| 0 <= j < m implies !occurs_at(s, key, j) by {
        lemma_key_not_before(k, rest, j);
    }
    lemma_first_occurrence(s, key, m);
}

/// The file name is exactly the text between the first `filename="` and
/// the next `"`: in `k`, `filename="`, `n`, `"` and `t`, where `k` holds no
/// `filename="` and `n` no `"`, the name is `n`, whatever else it holds.
pub proof fn lemma_filename_between_quotes(k: Seq<char>, n: Seq<char>, t: Seq<char>)
    requires
        forall|j: int| !occurs_at(k, "filename=\""@, j),
        forall|j: int| 0 <= j < n.len() ==> n[j] != '"',
    ensures
        filename_in(k + "filename=\""@ + n + seq!['"'] + t) == Some(n),
{
    let key = filename_key();
    let s = k + key + n + seq!['"'] + t;
    let tail = n + seq!['"'] + t;
    assert(s =~= k + key + tail);
    lemma_key_first_after(k, tail);
    let m = k.len() as int;
    lemma_key_shape();
    let rest = s.skip(m + 10);
    assert(rest =~= tail);
    assert(rest[n.len() as int] == '"');
    crate::utils::lemma_first_index(rest, '"', n.len() as int);
    assert(rest.take(n.len() as int) =~= n);
    reveal(filename_in);
}

/// Part headers that are valid UTF-8 and read `k`, `filename="`, `n`, `"`,
/// `t` (with no `filename="` in `k` and no `"` in `n`) name the file `n`.
pub proof fn lemma_headers_name_file(headers: Seq<u8>, k: Seq<char>, n: Seq<char>, t: Seq<char>)
    requires
        valid_utf8(headers),
        decode_utf8(headers) == k + "filename=\""@ + n + seq!['"'] + t,
        forall|j: int| !occurs_at(k, "filename=\""@, j),
        forall|j: int| 0 <= j < n.len() ==> n[j] != '"',
    ensures
        filename_in(header_text(headers)) == Some(n),
{
    lemma_filename_between_quotes(k, n, t);
}

/// The file name in the headers of a part, read as UTF-8 with invalid
/// sequences replaced.
pub fn extract_filename(headers: &[u8]) -> (r: Option<String>)
    ensures
        match r {
            Some(n) => filename_in(header_text(headers@)) == Some(n@),
            None => filename_in(header_text(headers@)) is None,
        },
{
    reveal(filename_in);
    let s = string_from_utf8_lossy(headers);
    let chars = chars_of(s.as_str());
    let key = chars_of("filename=\"");
    proof {
        reveal_strlit("filename=\"");
    }
    match find_chars(chars.as_slice(), key.as_slice()) {
        None => None,
        Some(p) => {
            let rest = copy_chars(chars.as_slice(), p + key.len(), chars.len());
            assert(rest@ =~= chars@.skip(p + filename_key().len()));
            match find_char(rest.as_slice(), '"') {
                None => {
                    assert(first_index_of(rest@, '"') is None);
                    None
                },
                Some(e) => {
                    proof {
                        crate::utils::lemma_first_index(rest@, '"', e as int);
                    }
                    let name = copy_chars(rest.as_slice(), 0, e);
                    assert(name@ =~= rest@.take(e as int));
                    Some(string_from_chars(name.as_slice()))
                },
            }
        },
    }
}

// ---------------------------------------------------------------------------
// Parts of a multipart body
// ---------------------------------------------------------------------------

/// CRLF CRLF, the end of a part's headers.
pub open spec fn blank_line() -> Seq<u8> {
    seq![13u8, 10, 13, 10]
}

/// The bytes `filename="`.
pub open spec fn filename_marker() -> Seq<u8> {
    seq![0x66u8, 0x69, 0x6c, 0x65, 0x6e, 0x61, 0x6d, 0x65, 0x3d, 0x22]
}

/// The next part of a multipart body, read from `cursor`.
pub enum PartView {
    /// No further complete part.
    Done,
    /// A part with a file: its name and data; the next part starts at `next`.
    File { name: Seq<char>, data: Seq<u8>, next: int },
    /// A part without a file name; the next part starts at `next`.
    Skip { next: int },
    /// A file part whose next boundary starts less than two bytes after its
    /// data starts: the data would have a negative length.
    Malformed,
}

/// Where a part's headers start: after the marker that ends at `start`,
/// and after a CRLF right after it.
pub open spec fn headers_start(body: Seq<u8>, start: int) -> int {
    if start + 2 <= body.len() && body[start] == 13 && body[start + 1] == 10 {
        start + 2
    } else {
        start
    }
}

/// The part whose headers run from `i` to `header_end`.
pub open spec fn part_with_headers(body: Seq<u8>, marker: Seq<u8>, i: int, header_end: int) -> PartView {
    let data_start = header_end + 4;
    match first_occurrence(body.skip(data_start), marker) {
        None => PartView::Done,
        Some(nr) => {
            let next = data_start + nr;
            let data_end = next - 2;
            let headers = body.subrange(i, header_end);
            if first_occurrence(headers, filename_marker()) is Some {
                match filename_in(header_text(headers)) {
                    Some(name) => if data_end < data_start {
                        PartView::Malformed
                    } else {
                        PartView::File { name, data: body.subrange(data_start, data_end), next }
                    },
                    None => PartView::Skip { next },
                }
            } else {
                PartView::Skip { next }
            }
        },
    }
}

/// The part whose headers start at `i` and end at the next blank line.
pub open spec fn part_from(body: Seq<u8>, marker: Seq<u8>, i: int) -> PartView {
    match first_occurrence(body.skip(i), blank_line()) {
        None => PartView::Done,
        Some(hr) => part_with_headers(body, marker, i, i + hr),
    }
}

/// The part of the body that follows the first boundary `marker` at or
/// after `cursor`: its headers start after the marker (and a CRLF right
/// after it) and end at a blank line; its data ends two bytes before the
/// next boundary.
pub open spec fn multipart_part(body: Seq<u8>, marker: Seq<u8>, cursor: int) -> PartView {
    match first_occurrence(body.skip(cursor), marker) {
        None => PartView::Done,
        Some(pos) => part_from(body, marker, headers_start(body, cursor + pos + marker.len())),
    }
}

/// The next part of a multipart body.
pub enum PartStep {
    Done,
    File { name: String, data: Vec<u8>, next: usize },
    Skip { next: usize },
    Malformed,
}

impl View for PartStep {
    type V = PartView;

    open spec fn view(&self) -> PartView {
        match self {
            PartStep::Done => PartView::Done,
            PartStep::File { name, data, next } => PartView::File {
                name: name@,
                data: data@,
                next: *next as int,
            },
            PartStep::Skip { next } => PartView::Skip { next: *next as int },
            PartStep::Malformed => PartView::Malformed,
        }
    }
}

/// The boundary marker of a multipart body: `--` and the boundary.
pub fn boundary_marker(boundary: &str) -> (r: Vec<u8>)
    ensures
        r@ == seq![0x2du8, 0x2d] + vstd::utf8::encode_utf8(boundary@),
{
    let mut m: Vec<u8> = Vec::new();
    m.push(0x2d);
    m.push(0x2d);
    crate::text::push_all(&mut m, bytes_of(boundary).as_slice());
    assert(m@ =~= seq![0x2du8, 0x2d] + vstd::utf8::encode_utf8(boundary@));
    m
}

fn skip_from(body: &[u8], at: usize) -> (r: Vec<u8>)
    requires
        at <= body.len(),
    ensures
        r@ == body@.skip(at as int),
{
    let r = copy_bytes(body, at, body.len());
    assert(r@ =~= body@.skip(at as int));
    r
}

fn part_with_headers_exec(body: &[u8], marker: &[u8], i: usize, header_end: usize) -> (r: PartStep)
    requires
        i <= header_end,
        header_end + 4 <= body.len(),
        marker.len() > 0,
    ensures
        r@ == part_with_headers(body@, marker@, i as int, header_end as int),
        r matches PartStep::File { next, .. } ==> header_end + 4 <= next <= body.len(),
        r matches PartStep::Skip { next } ==> header_end + 4 <= next <= body.len(),
{
    let data_start = header_end + 4;
    let nr = match find_subslice(skip_from(body, data_start).as_slice(), marker) {
        Some(n) => n,
        None => {
            return PartStep::Done;
        },
    };
    let next = data_start + nr;
    let headers = copy_bytes(body, i, header_end);
    let fm: Vec<u8> = vec![0x66u8, 0x69, 0x6c, 0x65, 0x6e, 0x61, 0x6d, 0x65, 0x3d, 0x22];
    assert(fm@ =~= filename_marker());
    if find_subslice(headers.as_slice(), fm.as_slice()).is_some() {
        match extract_filename(headers.as_slice()) {
            Some(name) => {
                if next - 2 < data_start {
                    PartStep::Malformed
                } else {
                    let data = copy_bytes(body, data_start, next - 2);
                    PartStep::File { name, data, next }
                }
            },
            None => PartStep::Skip { next },
        }
    } else {
        PartStep::Skip { next }
    }
}

fn part_from_exec(body: &[u8], marker: &[u8], i: usize) -> (r: PartStep)
    requires
        i <= body.len(),
        marker.len() > 0,
    ensures
        r@ == part_from(body@, marker@, i as int),
        r matches PartStep::File { next, .. } ==> i < next <= body.len(),
        r matches PartStep::Skip { next } ==> i < next <= body.len(),
{
    let blank: Vec<u8> = vec![13u8, 10, 13, 10];
    assert(blank@ =~= blank_line());
    match find_subslice(skip_from(body, i).as_slice(), blank.as_slice()) {
        Some(hr) => part_with_headers_exec(body, marker, i, i + hr),
        None => PartStep::Done,
    }
}

/// Reads the part of a multipart body after `cursor`.
pub fn next_part(body: &[u8], marker: &[u8], cursor: usize) -> (r: PartStep)
    requires
        cursor <= body.len(),
        marker.len() > 0,
    ensures
        r@ == multipart_part(body@, marker@, cursor as int),
        r matches PartStep::File { next, .. } ==> cursor < next <= body.len(),
        r matches PartStep::Skip { next } ==> cursor < next <= body.len(),
{
    let pos = match find_subslice(skip_from(body, cursor).as_slice(), marker) {
        Some(p) => p,
        None => {
            return PartStep::Done;
        },
    };
    let start = cursor + pos + marker.len();
    let i = if body.len() >= 2 && start <= body.len() - 2 && body[start] == 13 && body[start + 1]
        == 10 {
        start + 2
    } else {
        start
    };
    part_from_exec(body, marker, i)
}

/// Where `n` occurs in `s`, it has a first occurrence.
proof fn lemma_least_occurrence<T>(s: Seq<T>, n: Seq<T>, i: int)
    requires
        occurs_at(s, n, i),
    ensures
        exists|k: int| occurs_at(s, n, k) && forall|j: int| 0 <= j < k ==> !occurs_at(s, n, j),
    decreases i,
{
    if exists|j: int| 0 <= j < i && occurs_at(s, n, j) {
        let j = choose|j: int| 0 <= j < i && occurs_at(s, n, j);
        lemma_least_occurrence(s, n, j);
    } else {
        assert(occurs_at(s, n, i) && forall|j: int| 0 <= j < i ==> !occurs_at(s, n, j));
    }
}

/// Where `n` first occurs in `a`, it first occurs in `a` followed by more.
proof fn lemma_first_occurrence_extends<T>(a: Seq<T>, b: Seq<T>, n: Seq<T>)
    requires
        first_occurrence(a, n) is Some,
    ensures
        first_occurrence(a + b, n) == first_occurrence(a, n),
{
    let k = first_occurrence(a, n)->0;
    assert(occurs_at(a, n, k) && forall|j: int| 0 <= j < k ==> !occurs_at(a, n, j)) by {
        reveal(first_occurrence);
        let w = choose|i: int| occurs_at(a, n, i);
        lemma_least_occurrence(a, n, w);
    }
    let ab = a + b;
    assert(ab.subrange(k, k + n.len()) =~= a.subrange(k, k + n.len()));
    assert forall|j: int| 0 <= j < k implies !occurs_at(ab, n, j) by {
        assert(!occurs_at(a, n, j));
        assert(j + n.len() <= a.len());
        assert(ab.subrange(j, j + n.len()) =~= a.subrange(j, j + n.len()));
    }
    lemma_first_occurrence(ab, n, k);
}

/// A part that carries a file: the marker, a CRLF, the part's headers, a
/// blank line, the data, a CRLF and the marker of the next part.
pub open spec fn file_part(marker: Seq<u8>, headers: Seq<u8>, data: Seq<u8>) -> Seq<u8> {
    marker + seq![13u8, 10] + headers + blank_line() + data + seq![13u8, 10] + marker
}

/// What is written is read back: from the start of a body that begins with
/// a file part, the next part is that file, with the name its headers give
/// and its data, where the headers end at the first blank line and the data
/// and its CRLF do not hold the marker.
pub proof fn lemma_multipart_file_part(
    marker: Seq<u8>,
    headers: Seq<u8>,
    data: Seq<u8>,
    rest: Seq<u8>,
    name: Seq<char>,
)
    requires
        marker.len() > 0,
        first_occurrence(headers, filename_marker()) is Some,
        filename_in(header_text(headers)) == Some(name),
        first_occurrence(headers + blank_line(), blank_line()) == Some(headers.len() as int),
        first_occurrence(data + seq![13u8, 10] + marker, marker) == Some((data.len() + 2) as int),
    ensures
        multipart_part(file_part(marker, headers, data) + rest, marker, 0) == (PartView::File {
            name,
            data,
            next: (marker.len() + 2 + headers.len() + 4 + data.len() + 2) as int,
        }),
{
    let body = file_part(marker, headers, data) + rest;
    let m = marker.len() as int;
    let i = m + 2;
    let he = i + headers.len();
    let ds = he + 4;
    assert(body.skip(0) =~= body);
    assert(body.subrange(0, m) =~= marker);
    lemma_first_occurrence(body, marker, 0);
    assert(body[m] == 13u8 && body[m + 1] == 10u8);
    assert(headers_start(body, m) == i);
    assert(body.skip(i) =~= (headers + blank_line()) + (data + seq![13u8, 10] + marker + rest));
    lemma_first_occurrence_extends(
        headers + blank_line(),
        data + seq![13u8, 10] + marker + rest,
        blank_line(),
    );
    assert(body.skip(ds) =~= (data + seq![13u8, 10] + marker) + rest);
    lemma_first_occurrence_extends(data + seq![13u8, 10] + marker, rest, marker);
    assert(body.subrange(i, he) =~= headers);
    assert(body.subrange(ds, ds + data.len()) =~= data);
}

/// The files of a multipart body from `cursor` on, in order, each with its
/// name and data, and whether the reading stopped at a malformed file part
/// (the files before it are still listed).
pub open spec fn files_from(body: Seq<u8>, marker: Seq<u8>, cursor: int) -> (Seq<(Seq<char>, Seq<u8>)>, bool)
    decreases body.len() - cursor,
{
    if cursor < 0 || cursor > body.len() {
        (Seq::empty(), false)
    } else {
        match multipart_part(body, marker, cursor) {
            PartView::Done => (Seq::empty(), false),
            PartView::Malformed => (Seq::empty(), true),
            PartView::Skip { next } => if cursor < next <= body.len() {
                files_from(body, marker, next)
            } else {
                (Seq::empty(), false)
            },
            PartView::File { name, data, next } => if cursor < next <= body.len() {
                let rest = files_from(body, marker, next);
                (seq![(name, data)] + rest.0, rest.1)
            } else {
                (seq![(name, data)], false)
            },
        }
    }
}

/// The files of a multipart upload, read part after part from the start
/// of the body, and whether a malformed file part ended the reading.
pub fn multipart_files(body: &[u8], marker: &[u8]) -> (r: (Vec<(String, Vec<u8>)>, bool))
    requires
        marker.len() > 0,
    ensures
        r.0.deep_view() == files_from(body@, marker@, 0).0,
        r.1 == files_from(body@, marker@, 0).1,
{
    let mut files: Vec<(String, Vec<u8>)> = Vec::new();
    let mut cursor: usize = 0;
    loop
        invariant
            marker.len() > 0,
            cursor <= body.len(),
            files.deep_view() + files_from(body@, marker@, cursor as int).0 == files_from(
                body@,
                marker@,
                0,
            ).0,
            files_from(body@, marker@, cursor as int).1 == files_from(body@, marker@, 0).1,
        ensures
            files.deep_view() == files_from(body@, marker@, 0).0,
            false == files_from(body@, marker@, 0).1,
        decreases body.len() - cursor,
    {
        let ghost before = files.deep_view();
        let ghost rest = files_from(body@, marker@, cursor as int);
        match next_part(body, marker, cursor) {
            PartStep::Done => {
                assert(rest.0 =~= Seq::<(Seq<char>, Seq<u8>)>::empty());
                assert(before + rest.0 =~= before);
                break;
            },
            PartStep::Malformed => {
                assert(before + rest.0 =~= before);
                return (files, true);
            },
            PartStep::Skip { next } => {
                cursor = next;
            },
            PartStep::File { name, data, next } => {
                let ghost item = (name@, data@);
                let ghost old_files = files@;
                files.push((name, data));
                assert(files@ == old_files.push((name, data)));
                assert(files.deep_view().len() == before.len() + 1);
                assert(files.deep_view()[before.len() as int] == item);
                assert forall|k: int| 0 <= k < before.len() implies files.deep_view()[k]
                    == before[k] by {
                    assert(files@[k] == old_files[k]);
                }
                assert(files.deep_view() =~= before.push(item));
                assert(seq![item] + files_from(body@, marker@, next as int).0 =~= rest.0);
                assert(before.push(item) + files_from(body@, marker@, next as int).0 =~= before
                    + rest.0);
                cursor = next;
            },
        }
    }
    (files, false)
}

// ---------------------------------------------------------------------------
// Stored files
// ---------------------------------------------------------------------------

/// The position of the last occurrence of `c` in `s`, if any.
pub open spec fn last_index_of(s: Seq<char>, c: char) -> Option<int>
    decreases s.len(),
{
    if s.len() == 0 {
        None
    } else if s.last() == c {
        Some(s.len() - 1)
    } else {
        last_index_of(s.drop_last(), c)
    }
}

/// The last component that is a name, ignoring empty and `.` components.
pub open spec fn last_named_component(parts: Seq<Seq<char>>) -> Option<Seq<char>>
    decreases parts.len(),
{
    if parts.len() == 0 {
        None
    } else if parts.last().len() == 0 || parts.last() == "."@ {
        last_named_component(parts.drop_last())
    } else {
        Some(parts.last())
    }
}

/// `Path::file_name` on Unix: the last component, unless it is `..`.
pub open spec fn file_name_of(path: Seq<char>) -> Option<Seq<char>> {
    match last_named_component(split_on(path, '/')) {
        Some(c) => if c == ".."@ {
            None
        } else {
            Some(c)
        },
        None => None,
    }
}

/// `Path::extension` of a file name: what follows its last `.`, unless
/// that `.` is its first character or the name is `..`.
pub open spec fn extension_of(name: Seq<char>) -> Option<Seq<char>> {
    if name == ".."@ {
        None
    } else {
        match last_index_of(name, '.') {
            None => None,
            Some(i) => if i == 0 {
                None
            } else {
                Some(name.skip(i + 1))
            },
        }
    }
}

/// `Path::file_stem` of a file name: what precedes its last `.`, the whole
/// name where it has no `.` but at its start, and `..` for `..`.
pub open spec fn stem_of(name: Seq<char>) -> Seq<char> {
    if name == ".."@ {
        name
    } else {
        match last_index_of(name, '.') {
            None => name,
            Some(i) => if i == 0 {
                name
            } else {
                name.take(i)
            },
        }
    }
}

/// The extension an uploaded file is stored with: that of its name, `bin`
/// where it has none.
pub open spec fn stored_extension(original: Seq<char>) -> Seq<char> {
    match file_name_of(original) {
        Some(f) => match extension_of(f) {
            Some(e) => e,
            None => "bin"@,
        },
        None => "bin"@,
    }
}

fn last_dot(s: &[char]) -> (r: Option<usize>)
    ensures
        match r {
            Some(i) => last_index_of(s@, '.') == Some(i as int) && i < s.len(),
            None => last_index_of(s@, '.') is None,
        },
{
    let mut k: usize = s.len();
    assert(s@.take(s.len() as int) =~= s@);
    while k > 0
        invariant
            k <= s.len(),
            last_index_of(s@, '.') == last_index_of(s@.take(k as int), '.'),
        decreases k,
    {
        assert(s@.take(k as int).drop_last() =~= s@.take(k - 1));
        if s[k - 1] == '.' {
            return Some(k - 1);
        }
        k = k - 1;
    }
    None
}

fn file_name_chars(path: &[char]) -> (r: Option<Vec<char>>)
    ensures
        match r {
            Some(v) => file_name_of(path@) == Some(v@),
            None => file_name_of(path@) is None,
        },
{
    let parts = split_char(path, '/');
    let ghost ps = split_on(path@, '/');
    let dot = chars_of(".");
    let dotdot = chars_of("..");
    let mut k: usize = parts.len();
    assert(ps.take(ps.len() as int) =~= ps);
    while k > 0
        invariant
            k <= parts.len(),
            ps == split_on(path@, '/'),
            dot@ == "."@,
            dotdot@ == ".."@,
            parts@.len() == ps.len(),
            forall|j: int| 0 <= j < parts@.len() ==> #[trigger] parts@[j]@ == ps[j],
            last_named_component(ps) == last_named_component(ps.take(k as int)),
        decreases k,
    {
        assert(ps.take(k as int).drop_last() =~= ps.take(k - 1));
        let c = &parts[k - 1];
        if c.len() != 0 && !crate::text::chars_eq(c.as_slice(), dot.as_slice()) {
            if crate::text::chars_eq(c.as_slice(), dotdot.as_slice()) {
                return None;
            }
            return Some(copy_chars(c.as_slice(), 0, c.len()));
        }
        k = k - 1;
    }
    None
}

/// The extension an uploaded file named `original_filename` is stored with.
pub fn stored_file_extension(original_filename: &str) -> (r: String)
    ensures
        r@ == stored_extension(original_filename@),
{
    let chars = chars_of(original_filename);
    let name = match file_name_chars(chars.as_slice()) {
        Some(n) => n,
        None => {
            return String::from_str("bin");
        },
    };
    let dotdot = chars_of("..");
    if crate::text::chars_eq(name.as_slice(), dotdot.as_slice()) {
        return String::from_str("bin");
    }
    match last_dot(name.as_slice()) {
        Some(i) => {
            if i == 0 {
                String::from_str("bin")
            } else {
                let e = copy_chars(name.as_slice(), i + 1, name.len());
                assert(e@ =~= name@.skip(i + 1));
                string_from_chars(e.as_slice())
            }
        },
        None => String::from_str("bin"),
    }
}

/// The number a stored file's name gives: its stem as a `u32`, if it is one.
pub open spec fn media_number(name: Seq<char>) -> Option<nat> {
    parse_unsigned(stem_of(name), 10, u32::MAX as nat)
}

/// The largest number among the stored files' names, 0 where there is none.
pub open spec fn max_media_number(names: Seq<Seq<char>>) -> nat
    decreases names.len(),
{
    if names.len() == 0 {
        0
    } else {
        let m = max_media_number(names.drop_last());
        match media_number(names.last()) {
            Some(n) => if n > m {
                n
            } else {
                m
            },
            None => m,
        }
    }
}

fn stem_chars(name: &[char]) -> (r: Vec<char>)
    ensures
        r@ == stem_of(name@),
{
    let dotdot = chars_of("..");
    if crate::text::chars_eq(name, dotdot.as_slice()) {
        return copy_chars(name, 0, name.len());
    }
    match last_dot(name) {
        Some(i) => {
            if i == 0 {
                copy_chars(name, 0, name.len())
            } else {
                copy_chars(name, 0, i)
            }
        },
        None => copy_chars(name, 0, name.len()),
    }
}

/// The largest number that the names of the stored files give.
pub fn max_media_index(names: &Vec<String>) -> (r: u32)
    ensures
        r == max_media_number(names.deep_view()),
{
    let ghost nv = names.deep_view();
    let mut m: u32 = 0;
    let mut i: usize = 0;
    while i < names.len()
        invariant
            i <= names.len(),
            nv == names.deep_view(),
            m == max_media_number(nv.take(i as int)),
        decreases names.len() - i,
    {
        assert(nv.take(i + 1).drop_last() =~= nv.take(i as int));
        assert(nv[i as int] == names@[i as int]@);
        let chars = chars_of(names[i].as_str());
        let stem = stem_chars(chars.as_slice());
        match parse_usize(stem.as_slice(), 10) {
            Some(n) => {
                if n <= 0xffff_ffff {
                    if n as u32 > m {
                        m = n as u32;
                    }
                }
            },
            None => {},
        }
        i = i + 1;
    }
    assert(nv.take(names.len() as int) =~= nv);
    m
}

/// The path a stored file is written to: `server/medias/`, `/`, its number,
/// `.` and its extension.
pub open spec fn media_path(index: u32, ext: Seq<char>) -> Seq<char> {
    "server/medias//"@ + ascii_chars(decimal(index as nat)) + "."@ + ext
}

/// The path a stored file numbered `index` with extension `ext` is written to.
pub fn media_file_path(index: u32, ext: &str) -> (r: String)
    ensures
        r@ == media_path(index, ext@),
{
    let digits = render_decimal(index as u64);
    let mut out = chars_of("server/medias//");
    let mut i: usize = 0;
    let ghost o0 = out@;
    proof {
        crate::text::lemma_decimal_ascii(index as nat);
    }
    while i < digits.len()
        invariant
            i <= digits.len(),
            digits@ == decimal(index as nat),
            crate::text::all_ascii(digits@),
            out@ == o0 + ascii_chars(digits@.take(i as int)),
        decreases digits.len() - i,
    {
        assert(ascii_chars(digits@.take(i + 1)) =~= ascii_chars(digits@.take(i as int)).push(
            digits@[i as int] as char,
        ));
        out.push(crate::text::char_from_ascii(digits[i]));
        i = i + 1;
    }
    assert(digits@.take(digits.len() as int) =~= digits@);
    out.push('.');
    let e = chars_of(ext);
    let mut k: usize = 0;
    let ghost o1 = out@;
    while k < e.len()
        invariant
            k <= e.len(),
            out@ == o1 + e@.take(k as int),
        decreases e.len() - k,
    {
        out.push(e[k]);
        k = k + 1;
    }
    assert(e@.take(e.len() as int) =~= e@);
    proof {
        reveal_strlit(".");
    }
    assert(out@ =~= media_path(index, ext@));
    string_from_chars(out.as_slice())
}

} // verus!

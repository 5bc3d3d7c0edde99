//! Character- and byte-level text utilities shared by the parsers: Unicode
//! whitespace, trimming, splitting, ASCII case-insensitive comparison,
//! decimal and hexadecimal numbers, and conversions between strings,
//! characters and UTF-8 bytes.
use vstd::prelude::*;
use vstd::utf8::*;

verus! {

// ---------------------------------------------------------------------------
// Characters
// ---------------------------------------------------------------------------

/// Unicode `White_Space`, the set that `char::is_whitespace` and `str::trim` use.
pub open spec fn is_ws(c: char) -> bool {
    let u = c as u32;
    ||| 0x9 <= u <= 0xd
    ||| u == 0x20
    ||| u == 0x85
    ||| u == 0xa0
    ||| u == 0x1680
    ||| 0x2000 <= u <= 0x200a
    ||| u == 0x2028
    ||| u == 0x2029
    ||| u == 0x202f
    ||| u == 0x205f
    ||| u == 0x3000
}

pub fn char_is_ws(c: char) -> (r: bool)
    ensures
        r == is_ws(c),
{
    let u = c as u32;
    (0x9 <= u && u <= 0xd) || u == 0x20 || u == 0x85 || u == 0xa0 || u == 0x1680 || (0x2000 <= u
        && u <= 0x200a) || u == 0x2028 || u == 0x2029 || u == 0x202f || u == 0x205f || u == 0x3000
}

/// ASCII lower-casing of one character; every other character is kept.
pub open spec fn lower_char(c: char) -> char {
    if 'A' <= c <= 'Z' {
        ((c as u32) + 32) as char
    } else {
        c
    }
}

/// ASCII lower-casing of one byte; every other byte is kept.
pub open spec fn lower_byte(b: u8) -> u8 {
    if 0x41 <= b <= 0x5a {
        (b + 32) as u8
    } else {
        b
    }
}

/// `str::eq_ignore_ascii_case`: equal once ASCII letters are lower-cased.
pub open spec fn ci_eq(a: Seq<char>, b: Seq<char>) -> bool {
    &&& a.len() == b.len()
    &&& forall|i: int| 0 <= i < a.len() ==> lower_char(#[trigger] a[i]) == lower_char(b[i])
}

/// `<[u8]>::eq_ignore_ascii_case`.
pub open spec fn ci_eq_bytes(a: Seq<u8>, b: Seq<u8>) -> bool {
    &&& a.len() == b.len()
    &&& forall|i: int| 0 <= i < a.len() ==> lower_byte(#[trigger] a[i]) == lower_byte(b[i])
}

fn lower(c: char) -> (r: char)
    ensures
        r == lower_char(c),
{
    if 'A' <= c && c <= 'Z' {
        let u = (c as u32) + 32;
        assert(0x61 <= u <= 0x7a);
        char_from_ascii(u as u8)
    } else {
        c
    }
}

/// The character of an ASCII byte.
pub fn char_from_ascii(b: u8) -> (c: char)
    requires
        b < 128,
    ensures
        c == b as char,
        c as u32 == b as u32,
{
    b as char
}

pub fn chars_ci_eq(a: &[char], b: &[char]) -> (r: bool)
    ensures
        r == ci_eq(a@, b@),
{
    if a.len() != b.len() {
        return false;
    }
    let mut i: usize = 0;
    while i < a.len()
        invariant
            a.len() == b.len(),
            i <= a.len(),
            forall|j: int| 0 <= j < i ==> lower_char(#[trigger] a@[j]) == lower_char(b@[j]),
        decreases a.len() - i,
    {
        if lower(a[i]) != lower(b[i]) {
            return false;
        }
        i = i + 1;
    }
    true
}

pub fn bytes_ci_eq(a: &[u8], b: &[u8]) -> (r: bool)
    ensures
        r == ci_eq_bytes(a@, b@),
{
    if a.len() != b.len() {
        return false;
    }
    let mut i: usize = 0;
    while i < a.len()
        invariant
            a.len() == b.len(),
            i <= a.len(),
            forall|j: int| 0 <= j < i ==> lower_byte(#[trigger] a@[j]) == lower_byte(b@[j]),
        decreases a.len() - i,
    {
        let x: u8 = if 0x41 <= a[i] && a[i] <= 0x5a {
            a[i] + 32
        } else {
            a[i]
        };
        let y: u8 = if 0x41 <= b[i] && b[i] <= 0x5a {
            b[i] + 32
        } else {
            b[i]
        };
        if x != y {
            return false;
        }
        i = i + 1;
    }
    true
}

/// `str::eq_ignore_ascii_case` on two string slices.
pub fn str_ci_eq(a: &str, b: &str) -> (r: bool)
    ensures
        r == ci_eq(a@, b@),
{
    let x = chars_of(a);
    let y = chars_of(b);
    chars_ci_eq(x.as_slice(), y.as_slice())
}

// ---------------------------------------------------------------------------
// Conversions
// ---------------------------------------------------------------------------

/// The characters of a string slice, in order.
pub fn chars_of(s: &str) -> (v: Vec<char>)
    ensures
        v@ == s@,
{
    let mut v: Vec<char> = Vec::new();
    for c in it: s.chars()
        invariant
            v@ == it.seq().take(it.index() as int),
    {
        v.push(c);
    }
    v
}

/// `String::from_iter` over characters: the string made of the given characters.
#[verifier::external_body]
pub(crate) fn string_from_chars(v: &[char]) -> (s: String)
    ensures
        s@ == v@,
{
    v.iter().collect()
}

/// `String::from_utf8`: the string that the bytes encode, if they are valid UTF-8.
#[verifier::external_body]
pub(crate) fn string_from_utf8(b: &[u8]) -> (r: Option<String>)
    ensures
        r is Some <==> valid_utf8(b@),
        r matches Some(s) ==> s@ == decode_utf8(b@),
{
    String::from_utf8(b.to_vec()).ok()
}

/// The characters that the bytes encode as UTF-8, if they are valid UTF-8.
pub open spec fn utf8_chars(b: Seq<u8>) -> Option<Seq<char>> {
    if valid_utf8(b) {
        Some(decode_utf8(b))
    } else {
        None
    }
}

pub fn utf8_chars_of(b: &[u8]) -> (r: Option<Vec<char>>)
    ensures
        r matches Some(v) ==> utf8_chars(b@) == Some(v@),
        r is None ==> utf8_chars(b@) is None,
{
    match string_from_utf8(b) {
        Some(s) => Some(chars_of(s.as_str())),
        None => None,
    }
}

/// The UTF-8 bytes of a string.
pub fn bytes_of(s: &str) -> (b: Vec<u8>)
    ensures
        b@ == encode_utf8(s@),
{
    let bs = s.as_bytes();
    copy_bytes(bs, 0, bs.len())
}

/// Bytes that are all ASCII.
pub open spec fn all_ascii(b: Seq<u8>) -> bool {
    forall|i: int| 0 <= i < b.len() ==> #[trigger] b[i] < 128
}

/// The characters of ASCII bytes, one for one.
pub open spec fn ascii_chars(b: Seq<u8>) -> Seq<char> {
    b.map_values(|x: u8| x as char)
}

/// ASCII bytes are valid UTF-8 and decode one character per byte.
pub proof fn lemma_ascii_utf8(b: Seq<u8>)
    requires
        all_ascii(b),
    ensures
        valid_utf8(b),
        decode_utf8(b) == ascii_chars(b),
    decreases b.len(),
{
    if b.len() > 0 {
        let rest = b.drop_first();
        assert(pop_first_scalar(b) =~= rest);
        assert(all_ascii(rest));
        lemma_ascii_utf8(rest);
        assert(ascii_chars(b) =~= seq![b[0] as char] + ascii_chars(rest));
        let x = b[0];
        assert((x & 0x7f) == x) by (bit_vector)
            requires
                x < 128,
        ;
        assert(decode_first_scalar(b) == b[0] as u32);
    }
}

/// A copy of `v[lo..hi]`.
pub fn copy_chars(v: &[char], lo: usize, hi: usize) -> (r: Vec<char>)
    requires
        lo <= hi <= v.len(),
    ensures
        r@ == v@.subrange(lo as int, hi as int),
{
    let mut r: Vec<char> = Vec::new();
    let mut i = lo;
    while i < hi
        invariant
            lo <= i <= hi <= v.len(),
            r@ == v@.subrange(lo as int, i as int),
        decreases hi - i,
    {
        r.push(v[i]);
        i = i + 1;
    }
    r
}

/// A copy of `v[lo..hi]`.
pub fn copy_bytes(v: &[u8], lo: usize, hi: usize) -> (r: Vec<u8>)
    requires
        lo <= hi <= v.len(),
    ensures
        r@ == v@.subrange(lo as int, hi as int),
{
    let mut r: Vec<u8> = Vec::new();
    let mut i = lo;
    while i < hi
        invariant
            lo <= i <= hi <= v.len(),
            r@ == v@.subrange(lo as int, i as int),
        decreases hi - i,
    {
        r.push(v[i]);
        i = i + 1;
    }
    r
}

/// Appends `src` to `dst`.
pub fn push_all(dst: &mut Vec<u8>, src: &[u8])
    ensures
        final(dst)@ == old(dst)@ + src@,
{
    let mut i: usize = 0;
    while i < src.len()
        invariant
            i <= src.len(),
            dst@ == old(dst)@ + src@.subrange(0, i as int),
        decreases src.len() - i,
    {
        dst.push(src[i]);
        i = i + 1;
    }
}

/// Removes the first `n` bytes of `v`, as `v.drain(..n)`.
pub fn drop_front(v: &mut Vec<u8>, n: usize)
    requires
        n <= old(v).len(),
    ensures
        final(v)@ == old(v)@.skip(n as int),
{
    let rest = copy_bytes(v.as_slice(), n, v.len());
    *v = rest;
}

// ---------------------------------------------------------------------------
// Trimming and splitting
// ---------------------------------------------------------------------------

/// `str::trim_start`.
pub open spec fn trim_start(s: Seq<char>) -> Seq<char>
    decreases s.len(),
{
    if s.len() > 0 && is_ws(s[0]) {
        trim_start(s.drop_first())
    } else {
        s
    }
}

/// `str::trim_end`.
pub open spec fn trim_end(s: Seq<char>) -> Seq<char>
    decreases s.len(),
{
    if s.len() > 0 && is_ws(s.last()) {
        trim_end(s.drop_last())
    } else {
        s
    }
}

/// `str::trim`.
pub open spec fn trim(s: Seq<char>) -> Seq<char> {
    trim_end(trim_start(s))
}

/// `str::trim_start_matches` with one character.
pub open spec fn trim_start_char(s: Seq<char>, c: char) -> Seq<char>
    decreases s.len(),
{
    if s.len() > 0 && s[0] == c {
        trim_start_char(s.drop_first(), c)
    } else {
        s
    }
}

pub fn trim_chars(v: &[char]) -> (r: Vec<char>)
    ensures
        r@ == trim(v@),
{
    let mut lo: usize = 0;
    assert(v@.subrange(0, v.len() as int) =~= v@);
    while lo < v.len() && char_is_ws(v[lo])
        invariant
            lo <= v.len(),
            trim_start(v@) == trim_start(v@.subrange(lo as int, v.len() as int)),
        decreases v.len() - lo,
    {
        assert(v@.subrange(lo as int, v.len() as int).drop_first() =~= v@.subrange(
            lo + 1,
            v.len() as int,
        ));
        lo = lo + 1;
    }
    let mut hi: usize = v.len();
    while hi > lo && char_is_ws(v[hi - 1])
        invariant
            lo <= hi <= v.len(),
            trim(v@) == trim_end(v@.subrange(lo as int, hi as int)),
        decreases hi,
    {
        assert(v@.subrange(lo as int, hi as int).drop_last() =~= v@.subrange(
            lo as int,
            hi - 1,
        ));
        hi = hi - 1;
    }
    copy_chars(v, lo, hi)
}

pub fn trim_start_matches_char(v: &[char], c: char) -> (r: Vec<char>)
    ensures
        r@ == trim_start_char(v@, c),
{
    let mut lo: usize = 0;
    assert(v@.subrange(0, v.len() as int) =~= v@);
    while lo < v.len() && v[lo] == c
        invariant
            lo <= v.len(),
            trim_start_char(v@, c) == trim_start_char(v@.subrange(lo as int, v.len() as int), c),
        decreases v.len() - lo,
    {
        assert(v@.subrange(lo as int, v.len() as int).drop_first() =~= v@.subrange(
            lo + 1,
            v.len() as int,
        ));
        lo = lo + 1;
    }
    assert(v@.subrange(lo as int, v.len() as int) =~= v@.skip(lo as int));
    copy_chars(v, lo, v.len())
}

/// The words of `s` and the word being read, after reading `s` left to right:
/// a word is a maximal run of characters that are not whitespace.
pub open spec fn words_state(s: Seq<char>) -> (Seq<Seq<char>>, Seq<char>)
    decreases s.len(),
{
    if s.len() == 0 {
        (seq![], seq![])
    } else {
        let (done, cur) = words_state(s.drop_last());
        if is_ws(s.last()) {
            if cur.len() > 0 {
                (done.push(cur), seq![])
            } else {
                (done, cur)
            }
        } else {
            (done, cur.push(s.last()))
        }
    }
}

/// `str::split_whitespace`: the maximal runs of non-whitespace characters.
pub open spec fn words(s: Seq<char>) -> Seq<Seq<char>> {
    let (done, cur) = words_state(s);
    if cur.len() > 0 {
        done.push(cur)
    } else {
        done
    }
}

pub fn split_whitespace(v: &[char]) -> (r: Vec<Vec<char>>)
    ensures
        r@.len() == words(v@).len(),
        forall|i: int| 0 <= i < r@.len() ==> #[trigger] r@[i]@ == words(v@)[i],
{
    let mut done: Vec<Vec<char>> = Vec::new();
    let mut cur: Vec<char> = Vec::new();
    let mut i: usize = 0;
    while i < v.len()
        invariant
            i <= v.len(),
            done@.len() == words_state(v@.take(i as int)).0.len(),
            forall|k: int|
                0 <= k < done@.len() ==> #[trigger] done@[k]@ == words_state(v@.take(i as int)).0[k],
            cur@ == words_state(v@.take(i as int)).1,
        decreases v.len() - i,
    {
        assert(v@.take(i + 1).drop_last() =~= v@.take(i as int));
        let c = v[i];
        if char_is_ws(c) {
            if cur.len() > 0 {
                let w = cur;
                done.push(w);
                cur = Vec::new();
            }
        } else {
            cur.push(c);
        }
        i = i + 1;
    }
    assert(v@.take(v.len() as int) =~= v@);
    if cur.len() > 0 {
        done.push(cur);
    }
    done
}

/// The pieces between occurrences of `sep`, as `str::split` with one character.
pub open spec fn split_state(s: Seq<char>, sep: char) -> (Seq<Seq<char>>, Seq<char>)
    decreases s.len(),
{
    if s.len() == 0 {
        (seq![], seq![])
    } else {
        let (done, cur) = split_state(s.drop_last(), sep);
        if s.last() == sep {
            (done.push(cur), seq![])
        } else {
            (done, cur.push(s.last()))
        }
    }
}

/// `str::split` on one character: always at least one piece.
pub open spec fn split_on(s: Seq<char>, sep: char) -> Seq<Seq<char>> {
    let (done, cur) = split_state(s, sep);
    done.push(cur)
}

pub fn split_char(v: &[char], sep: char) -> (r: Vec<Vec<char>>)
    ensures
        r@.len() == split_on(v@, sep).len(),
        forall|i: int| 0 <= i < r@.len() ==> #[trigger] r@[i]@ == split_on(v@, sep)[i],
{
    let mut done: Vec<Vec<char>> = Vec::new();
    let mut cur: Vec<char> = Vec::new();
    let mut i: usize = 0;
    while i < v.len()
        invariant
            i <= v.len(),
            done@.len() == split_state(v@.take(i as int), sep).0.len(),
            forall|k: int|
                0 <= k < done@.len() ==> #[trigger] done@[k]@ == split_state(
                    v@.take(i as int),
                    sep,
                ).0[k],
            cur@ == split_state(v@.take(i as int), sep).1,
        decreases v.len() - i,
    {
        assert(v@.take(i + 1).drop_last() =~= v@.take(i as int));
        let c = v[i];
        if c == sep {
            let w = cur;
            done.push(w);
            cur = Vec::new();
        } else {
            cur.push(c);
        }
        i = i + 1;
    }
    assert(v@.take(v.len() as int) =~= v@);
    done.push(cur);
    done
}

proof fn lemma_split_state_after_sep(a: Seq<char>, sep: char, b: Seq<char>)
    ensures
        split_state(a + seq![sep] + b, sep) == (
            split_on(a, sep) + split_state(b, sep).0,
            split_state(b, sep).1,
        ),
    decreases b.len(),
{
    let s = a + seq![sep] + b;
    if b.len() == 0 {
        assert(s.drop_last() =~= a);
        assert(split_on(a, sep) + split_state(b, sep).0 =~= split_on(a, sep));
    } else {
        lemma_split_state_after_sep(a, sep, b.drop_last());
        assert(s.drop_last() =~= a + seq![sep] + b.drop_last());
        let (d, c) = split_state(b.drop_last(), sep);
        if b.last() == sep {
            assert((split_on(a, sep) + d).push(c) =~= split_on(a, sep) + d.push(c));
        }
    }
}

/// Splitting at a separator splits each side of it: the pieces of
/// `a`, the separator and `b` are the pieces of `a` followed by those of `b`.
pub proof fn lemma_split_on_join(a: Seq<char>, sep: char, b: Seq<char>)
    ensures
        split_on(a + seq![sep] + b, sep) == split_on(a, sep) + split_on(b, sep),
{
    lemma_split_state_after_sep(a, sep, b);
    let (d, c) = split_state(b, sep);
    assert((split_on(a, sep) + d).push(c) =~= split_on(a, sep) + d.push(c));
}

/// The position of the first occurrence of `c` in `s`, if any.
pub open spec fn first_index_of(s: Seq<char>, c: char) -> Option<int> {
    if exists|i: int| 0 <= i < s.len() && s[i] == c {
        Some(choose|i: int| 0 <= i < s.len() && s[i] == c && forall|j: int| 0 <= j < i ==> s[j] != c)
    } else {
        None
    }
}

pub fn find_char(v: &[char], c: char) -> (r: Option<usize>)
    ensures
        match r {
            Some(i) => i < v.len() && v@[i as int] == c && forall|j: int|
                0 <= j < i ==> v@[j] != c,
            None => forall|j: int| 0 <= j < v.len() ==> v@[j] != c,
        },
{
    let mut i: usize = 0;
    while i < v.len()
        invariant
            i <= v.len(),
            forall|j: int| 0 <= j < i ==> v@[j] != c,
        decreases v.len() - i,
    {
        if v[i] == c {
            return Some(i);
        }
        i = i + 1;
    }
    None
}

pub fn chars_eq(a: &[char], b: &[char]) -> (r: bool)
    ensures
        r == (a@ == b@),
{
    if a.len() != b.len() {
        return false;
    }
    let mut i: usize = 0;
    while i < a.len()
        invariant
            a.len() == b.len(),
            i <= a.len(),
            forall|j: int| 0 <= j < i ==> a@[j] == b@[j],
        decreases a.len() - i,
    {
        if a[i] != b[i] {
            return false;
        }
        i = i + 1;
    }
    assert(a@ =~= b@);
    true
}

/// `s` begins with `p`.
pub open spec fn has_prefix<T>(s: Seq<T>, p: Seq<T>) -> bool {
    p.len() <= s.len() && s.take(p.len() as int) == p
}

/// `s` ends with `p`.
pub open spec fn has_suffix<T>(s: Seq<T>, p: Seq<T>) -> bool {
    p.len() <= s.len() && s.skip(s.len() - p.len()) == p
}

pub fn chars_starts_with(s: &[char], p: &[char]) -> (r: bool)
    ensures
        r == has_prefix(s@, p@),
{
    if p.len() > s.len() {
        return false;
    }
    let mut i: usize = 0;
    while i < p.len()
        invariant
            p.len() <= s.len(),
            i <= p.len(),
            forall|j: int| 0 <= j < i ==> s@[j] == p@[j],
        decreases p.len() - i,
    {
        if s[i] != p[i] {
            assert(s@.take(p.len() as int)[i as int] != p@[i as int]);
            return false;
        }
        i = i + 1;
    }
    assert(s@.take(p.len() as int) =~= p@);
    true
}

pub fn chars_ends_with(s: &[char], p: &[char]) -> (r: bool)
    ensures
        r == has_suffix(s@, p@),
{
    if p.len() > s.len() {
        return false;
    }
    let off = s.len() - p.len();
    let mut i: usize = 0;
    while i < p.len()
        invariant
            p.len() <= s.len(),
            off == s.len() - p.len(),
            i <= p.len(),
            forall|j: int| 0 <= j < i ==> s@[off + j] == p@[j],
        decreases p.len() - i,
    {
        if s[off + i] != p[i] {
            assert(s@.skip(off as int)[i as int] != p@[i as int]);
            return false;
        }
        i = i + 1;
    }
    assert(s@.skip(off as int) =~= p@);
    true
}

// ---------------------------------------------------------------------------
// Numbers
// ---------------------------------------------------------------------------

/// The value of a digit in the given radix (10 or 16), if it is one.
pub open spec fn digit_value(c: char, radix: nat) -> Option<nat> {
    if '0' <= c <= '9' && (c as u32 - '0' as u32) < radix {
        Some((c as u32 - '0' as u32) as nat)
    } else if radix == 16 && 'a' <= c <= 'f' {
        Some((c as u32 - 'a' as u32 + 10) as nat)
    } else if radix == 16 && 'A' <= c <= 'F' {
        Some((c as u32 - 'A' as u32 + 10) as nat)
    } else {
        None
    }
}

/// The value of a sequence of digits, most significant first; `None` if a
/// character is not a digit.
pub open spec fn digits_value(s: Seq<char>, radix: nat) -> Option<nat>
    decreases s.len(),
{
    if s.len() == 0 {
        Some(0)
    } else {
        match (digits_value(s.drop_last(), radix), digit_value(s.last(), radix)) {
            (Some(v), Some(d)) => Some(v * radix + d),
            _ => None,
        }
    }
}

/// Integer parsing as `from_str_radix` for an unsigned type whose largest
/// value is `max`: an optional `+`, then at least one digit, and a value that fits.
pub open spec fn parse_unsigned(s: Seq<char>, radix: nat, max: nat) -> Option<nat> {
    let d = if s.len() > 1 && s[0] == '+' {
        s.drop_first()
    } else {
        s
    };
    if d.len() == 0 {
        None
    } else {
        match digits_value(d, radix) {
            Some(v) => if v <= max {
                Some(v)
            } else {
                None
            },
            None => None,
        }
    }
}

fn digit_of(c: char, radix: u32) -> (r: Option<u32>)
    requires
        radix == 10 || radix == 16,
    ensures
        match digit_value(c, radix as nat) {
            Some(d) => r == Some(d as u32) && d < radix,
            None => r is None,
        },
{
    if '0' <= c && c <= '9' && (c as u32 - '0' as u32) < radix {
        Some(c as u32 - '0' as u32)
    } else if radix == 16 && 'a' <= c && c <= 'f' {
        Some(c as u32 - 'a' as u32 + 10)
    } else if radix == 16 && 'A' <= c && c <= 'F' {
        Some(c as u32 - 'A' as u32 + 10)
    } else {
        None
    }
}

proof fn lemma_digits_none_extends(s: Seq<char>, radix: nat, n: int)
    requires
        0 <= n <= s.len(),
        digits_value(s.take(n), radix) is None,
    ensures
        digits_value(s, radix) is None,
    decreases s.len() - n,
{
    if n < s.len() {
        assert(s.take(n + 1).drop_last() =~= s.take(n));
        lemma_digits_none_extends(s, radix, n + 1);
    } else {
        assert(s.take(n) =~= s);
    }
}

proof fn lemma_digits_monotone(s: Seq<char>, radix: nat, n: int)
    requires
        0 <= n <= s.len(),
        radix > 0,
        digits_value(s, radix) is Some,
    ensures
        digits_value(s.take(n), radix) is Some,
        digits_value(s.take(n), radix)->0 <= digits_value(s, radix)->0,
    decreases s.len() - n,
{
    if n < s.len() {
        lemma_digits_monotone(s, radix, n + 1);
        assert(s.take(n + 1).drop_last() =~= s.take(n));
        let v = digits_value(s.take(n), radix);
        if v is None {
            assert(digits_value(s.take(n + 1), radix) is None);
        }
        let a = v->0;
        assert(a <= a * radix) by (nonlinear_arith)
            requires
                radix > 0,
        ;
    } else {
        assert(s.take(n) =~= s);
    }
}

/// `from_str_radix` for `usize` with radix 10 or 16.
pub fn parse_usize(s: &[char], radix: u32) -> (r: Option<usize>)
    requires
        radix == 10 || radix == 16,
    ensures
        match parse_unsigned(s@, radix as nat, usize::MAX as nat) {
            Some(v) => r == Some(v as usize),
            None => r is None,
        },
{
    let start: usize = if s.len() > 1 && s[0] == '+' {
        1
    } else {
        0
    };
    let ghost d = if s@.len() > 1 && s@[0] == '+' {
        s@.drop_first()
    } else {
        s@
    };
    assert(d =~= s@.skip(start as int));
    if start == s.len() {
        return None;
    }
    let mut v: usize = 0;
    let mut i: usize = start;
    while i < s.len()
        invariant
            start <= i <= s.len(),
            d == s@.skip(start as int),
            d == (if s@.len() > 1 && s@[0] == '+' {
                s@.drop_first()
            } else {
                s@
            }),
            d.len() > 0,
            radix == 10 || radix == 16,
            digits_value(d.take(i - start), radix as nat) == Some(v as nat),
        decreases s.len() - i,
    {
        assert(d.take(i + 1 - start).drop_last() =~= d.take(i - start));
        assert(d.take(i + 1 - start).last() == s@[i as int]);
        match digit_of(s[i], radix) {
            Some(dv) => {
                if v > (usize::MAX - dv as usize) / (radix as usize) {
                    proof {
                        let r = radix as int;
                        let m = usize::MAX as int;
                        let w = v as int;
                        let e = dv as int;
                        assert(w * r + e > m) by (nonlinear_arith)
                            requires
                                w > (m - e) / r,
                                r > 0,
                                0 <= e < r,
                                m >= e,
                        ;
                        let ghost n = (i + 1 - start) as int;
                        assert(digits_value(d.take(n), radix as nat) == Some((w * r + e) as nat));
                        if digits_value(d, radix as nat) is Some {
                            lemma_digits_monotone(d, radix as nat, n);
                        }
                    }
                    return None;
                }
                proof {
                    let r = radix as int;
                    let m = usize::MAX as int;
                    let w = v as int;
                    let e = dv as int;
                    assert(w * r + e <= m) by (nonlinear_arith)
                        requires
                            w <= (m - e) / r,
                            r > 0,
                            0 <= e,
                            m >= e,
                    ;
                }
                v = v * (radix as usize) + dv as usize;
            },
            None => {
                proof {
                    assert(digits_value(d.take((i + 1 - start) as int), radix as nat) is None);
                    lemma_digits_none_extends(d, radix as nat, (i + 1 - start) as int);
                }
                return None;
            },
        }
        i = i + 1;
    }
    assert(d.take(s.len() - start) =~= d);
    Some(v)
}

/// `str::parse::<u16>`.
pub fn parse_u16(s: &[char]) -> (r: Option<u16>)
    ensures
        match parse_unsigned(s@, 10, u16::MAX as nat) {
            Some(v) => r == Some(v as u16),
            None => r is None,
        },
{
    match parse_usize(s, 10) {
        Some(v) => {
            if v <= 65535 {
                Some(v as u16)
            } else {
                None
            }
        },
        None => {
            proof {
                let d = if s@.len() > 1 && s@[0] == '+' {
                    s@.drop_first()
                } else {
                    s@
                };
                if d.len() > 0 && digits_value(d, 10) is Some {
                    assert(digits_value(d, 10)->0 > usize::MAX);
                }
            }
            None
        },
    }
}

/// The decimal digits of `n`, most significant first, without leading zeros.
pub open spec fn decimal(n: nat) -> Seq<u8>
    decreases n,
{
    if n < 10 {
        seq![(n + 0x30) as u8]
    } else {
        decimal(n / 10).push((n % 10 + 0x30) as u8)
    }
}

/// The decimal rendering of `n` in ASCII bytes.
pub fn render_decimal(n: u64) -> (r: Vec<u8>)
    ensures
        r@ == decimal(n as nat),
    decreases n,
{
    if n < 10 {
        let mut v: Vec<u8> = Vec::new();
        v.push((n as u8) + 0x30);
        v
    } else {
        let mut v = render_decimal(n / 10);
        v.push(((n % 10) as u8) + 0x30);
        v
    }
}

/// The lowercase hexadecimal digits of `n`, most significant first, without leading zeros.
pub open spec fn hex_digit(d: nat) -> u8 {
    if d < 10 {
        (d + 0x30) as u8
    } else {
        (d - 10 + 0x61) as u8
    }
}

/// The lowercase hexadecimal rendering of `n`.
pub open spec fn hex(n: nat) -> Seq<u8>
    decreases n,
{
    if n < 16 {
        seq![hex_digit(n)]
    } else {
        hex(n / 16).push(hex_digit(n % 16))
    }
}

/// Decimal digits are ASCII, and read back as the number they render.
pub proof fn lemma_decimal_ascii(n: nat)
    ensures
        all_ascii(decimal(n)),
        decimal(n).len() > 0,
        forall|i: int| 0 <= i < decimal(n).len() ==> 0x30 <= #[trigger] decimal(n)[i] <= 0x39,
        digits_value(ascii_chars(decimal(n)), 10) == Some(n),
    decreases n,
{
    let d = n % 10;
    let c = ((d + 0x30) as u8) as char;
    assert(digit_value(c, 10) == Some(d));
    if n >= 10 {
        lemma_decimal_ascii(n / 10);
        let a = ascii_chars(decimal(n));
        assert(a.drop_last() =~= ascii_chars(decimal(n / 10)));
        assert(a.last() == c);
    } else {
        let a = ascii_chars(decimal(n));
        assert(a.drop_last() =~= Seq::<char>::empty());
        assert(a.last() == c);
        assert(digits_value(Seq::<char>::empty(), 10) == Some(0nat));
    }
}

/// Rendering a number in decimal and parsing it back gives the number.
pub proof fn lemma_decimal_roundtrip(n: nat, max: nat)
    requires
        n <= max,
    ensures
        parse_unsigned(ascii_chars(decimal(n)), 10, max) == Some(n),
{
    lemma_decimal_ascii(n);
    let a = ascii_chars(decimal(n));
    assert(a[0] == decimal(n)[0] as char);
    assert(a[0] != '+');
}

} // verus!

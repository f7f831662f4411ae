//! Paths, parameters, ids and the fixed response headers.

use crate::text::{
    char_seqs, chars_position, chars_range, chars_split, from_chars, lowercase, position_of,
    push_str, split, starts_with, str_eq, str_to_string, to_chars, to_lowercase,
};
use crate::types::{pairs, HttpResponse, Principal};
use sha2::Digest;
use vstd::bytes::{spec_u64_to_le_bytes, u64_to_le_bytes};
use vstd::prelude::*;

verus! {

// ---------------------------------------------------------------------------
// Hashes and hexadecimal text
// ---------------------------------------------------------------------------

/// The SHA-256 digest of a byte string.
pub uninterp spec fn sha256_digest(data: Seq<u8>) -> Seq<u8>;

/// The SHA-256 digest of the bytes. Wraps `Sha256::digest` of the sha2
/// crate; the digest is 32 bytes long and depends on the bytes alone.
#[verifier::external_body]
pub(crate) fn sha256(data: &[u8]) -> (r: Vec<u8>)
    ensures
        r@ == sha256_digest(data@),
        r@.len() == 32,
{
    sha2::Sha256::digest(data).to_vec()
}

/// The character of a hexadecimal digit, letters in lower case.
pub open spec fn hex_digit(n: int) -> char {
    if n < 10 {
        (0x30 + n) as char
    } else {
        (0x57 + n) as char
    }
}

/// The hexadecimal text of a byte string: two digits for each byte, the
/// high one first, letters in lower case.
pub open spec fn hex_lower(b: Seq<u8>) -> Seq<char> {
    Seq::new(
        2 * b.len(),
        |i: int|
            if i % 2 == 0 {
                hex_digit(b[i / 2] as int / 16)
            } else {
                hex_digit(b[i / 2] as int % 16)
            },
    )
}

/// The hexadecimal text of the bytes. Wraps `hex::encode`, which writes
/// each byte as two digits from the table `0123456789abcdef`, the high
/// half first.
#[verifier::external_body]
pub(crate) fn hex_encode(data: &[u8]) -> (r: String)
    ensures
        r@ == hex_lower(data@),
{
    hex::encode(data)
}

/// The bytes of a number, the most significant first.
pub open spec fn be_bytes(x: u64) -> Seq<u8> {
    spec_u64_to_le_bytes(x).reverse()
}

fn u64_be_bytes(x: u64) -> (r: Vec<u8>)
    ensures
        r@ == be_bytes(x),
{
    let le: Vec<u8> = u64_to_le_bytes(x);
    let mut r: Vec<u8> = Vec::new();
    let mut i: usize = 0;
    while i < 8
        invariant
            i <= 8,
            le@.len() == 8,
            r@.len() == i,
            forall|k: int| 0 <= k < i ==> r@[k] == le@[7 - k],
        decreases 8 - i,
    {
        r.push(le[7 - i]);
        i += 1;
    }
    assert(r@ =~= le@.reverse());
    r
}

/// What an id is hashed from: the time, the counter and the caller.
pub open spec fn id_seed(time_ns: u64, counter: u64, caller: Seq<u8>) -> Seq<u8> {
    be_bytes(time_ns) + be_bytes(counter) + caller
}

/// The text of an id: the first sixteen bytes of a digest in hexadecimal,
/// grouped as four, two, two, two and six bytes.
pub open spec fn id_text(d: Seq<u8>) -> Seq<char> {
    hex_lower(d.subrange(0, 4)) + "-"@ + hex_lower(d.subrange(4, 6)) + "-"@ + hex_lower(
        d.subrange(6, 8),
    ) + "-"@ + hex_lower(d.subrange(8, 10)) + "-"@ + hex_lower(d.subrange(10, 16))
}

/// The counter that makes the ids of one process differ.
pub struct IdCounter {
    pub count: u64,
}

impl IdCounter {
    pub fn new() -> (c: Self)
        ensures
            c.count == 0,
    {
        IdCounter { count: 0 }
    }

    /// The next count; after the largest the counter starts again.
    pub fn next(&mut self) -> (n: u64)
        ensures
            n == (if old(self).count == u64::MAX {
                0
            } else {
                old(self).count + 1
            }),
            final(self).count == n,
    {
        self.count = self.count.wrapping_add(1);
        self.count
    }
}

/// The text of an id has 36 characters: 32 digits and four hyphens.
pub proof fn lemma_id_text_len(d: Seq<u8>)
    requires
        d.len() >= 16,
    ensures
        id_text(d).len() == 36,
{
    reveal_strlit("-");
    assert("-"@.len() == 1);
}

/// The text of an id from the digest that it is cut from.
pub fn format_id(digest: &[u8]) -> (r: String)
    requires
        digest@.len() >= 16,
    ensures
        r@ == id_text(digest@),
        r@.len() == 36,
{
    proof {
        lemma_id_text_len(digest@);
    }
    let mut r: String = hex_encode(crate::codec::copy_range(digest, 0, 4).as_slice());
    push_str(&mut r, "-");
    push_str(&mut r, hex_encode(crate::codec::copy_range(digest, 4, 6).as_slice()).as_str());
    push_str(&mut r, "-");
    push_str(&mut r, hex_encode(crate::codec::copy_range(digest, 6, 8).as_slice()).as_str());
    push_str(&mut r, "-");
    push_str(&mut r, hex_encode(crate::codec::copy_range(digest, 8, 10).as_slice()).as_str());
    push_str(&mut r, "-");
    push_str(&mut r, hex_encode(crate::codec::copy_range(digest, 10, 16).as_slice()).as_str());
    r
}

/// A new id: the digest of the time, the next count and the caller, as the
/// text of an id.
pub fn generate_uuid(counter: &mut IdCounter, time_ns: u64, caller: &Principal) -> (r: String)
    ensures
        final(counter).count == (if old(counter).count == u64::MAX {
            0
        } else {
            old(counter).count + 1
        }),
        r@ == id_text(sha256_digest(id_seed(time_ns, final(counter).count, caller@))),
        r@.len() == 36,
{
    let n: u64 = counter.next();
    let mut seed: Vec<u8> = u64_be_bytes(time_ns);
    let mut b: Vec<u8> = u64_be_bytes(n);
    seed.append(&mut b);
    let mut c: Vec<u8> = caller.bytes.clone();
    seed.append(&mut c);
    let d: Vec<u8> = sha256(seed.as_slice());
    format_id(d.as_slice())
}

// ---------------------------------------------------------------------------
// Paths
// ---------------------------------------------------------------------------

/// The path of an absolute URL, if the text is one, as `Url::parse` and
/// `Url::path` of the url crate give it.
pub uninterp spec fn url_path(text: Seq<char>) -> Option<Seq<char>>;

/// The path of an absolute URL. Wraps `Url::parse` and, on what it parsed,
/// `Url::path`; the path depends on the text alone, and the contract only
/// gives it a name.
#[verifier::external_body]
pub(crate) fn parse_url_path(text: &str) -> (r: Option<String>)
    ensures
        match r {
            Some(p) => url_path(text@) == Some(p@),
            None => url_path(text@) is None,
        },
{
    match url::Url::parse(text) {
        Ok(u) => Some(u.path().to_string()),
        Err(_) => None,
    }
}

/// What stands before the first `?`.
pub open spec fn before_query(url: Seq<char>) -> Seq<char> {
    url.take(position_of(url, '?'))
}

/// The address under which a request target is parsed: on the local host,
/// with a slash before a target that has none.
pub open spec fn local_address(url: Seq<char>) -> Seq<char> {
    if url.len() > 0 && url[0] == '/' {
        "http://localhost"@ + url
    } else {
        "http://localhost/"@ + url
    }
}

/// The path of a request target, given the path that its local address
/// parsed to: that path, or, where the address is no URL, what stands
/// before the first `?`, with a slash in front if there is none.
pub open spec fn path_given(url: Seq<char>, parsed: Option<Seq<char>>) -> Seq<char> {
    match parsed {
        Some(p) => p,
        None => if url.len() > 0 && url[0] == '/' {
            before_query(url)
        } else {
            "/"@ + before_query(url)
        },
    }
}

/// The path of a request target: the one given by what its local address
/// parses to.
pub open spec fn path_of(url: Seq<char>) -> Seq<char> {
    path_given(url, url_path(local_address(url)))
}

/// The address under which a request target is parsed.
pub fn local_address_of(url: &str) -> (r: String)
    ensures
        r@ == local_address(url@),
{
    let chars: Vec<char> = to_chars(url);
    let rooted: bool = chars.len() > 0 && chars[0] == '/';
    let mut address: String = if rooted {
        str_to_string("http://localhost")
    } else {
        str_to_string("http://localhost/")
    };
    push_str(&mut address, url);
    address
}

/// The path of a request target, given the path that its local address
/// parsed to.
pub fn path_from(url: &str, parsed: Option<String>) -> (r: String)
    ensures
        r@ == path_given(
            url@,
            match parsed {
                Some(p) => Some(p@),
                None => None,
            },
        ),
{
    match parsed {
        Some(p) => p,
        None => {
            let chars: Vec<char> = to_chars(url);
            let rooted: bool = chars.len() > 0 && chars[0] == '/';
            let at: usize = chars_position(&chars, '?');
            let head: Vec<char> = chars_range(&chars, 0, at);
            assert(chars@.subrange(0, at as int) == chars@.take(at as int));
            if rooted {
                from_chars(&head)
            } else {
                let mut r: String = str_to_string("/");
                push_str(&mut r, from_chars(&head).as_str());
                r
            }
        },
    }
}

/// The path of a request target.
pub fn extract_path(url: &str) -> (r: String)
    ensures
        r@ == path_of(url@),
{
    let address: String = local_address_of(url);
    path_from(url, parse_url_path(address.as_str()))
}

/// Whether a part of a pattern stands for a parameter: `{` and `}` around
/// a name.
pub open spec fn is_placeholder(part: Seq<char>) -> bool {
    part.len() > 0 && part[0] == '{' && part.last() == '}'
}

/// The position of the first placeholder among the parts, or their number.
pub open spec fn first_placeholder(parts: Seq<Seq<char>>) -> int
    decreases parts.len(),
{
    if parts.len() == 0 || is_placeholder(parts[0]) {
        0
    } else {
        1 + first_placeholder(parts.drop_first())
    }
}

/// The part of a path that stands where the pattern has its first
/// placeholder, if path and pattern have as many parts and the pattern
/// has a placeholder.
pub open spec fn path_param(path: Seq<char>, pattern: Seq<char>) -> Option<Seq<char>> {
    let have = split(path, '/');
    let want = split(pattern, '/');
    if have.len() != want.len() || first_placeholder(want) >= want.len() {
        None
    } else {
        Some(have[first_placeholder(want)])
    }
}

/// The parameter of a path for a pattern such as `/memories/{id}`.
#[verifier::loop_isolation(false)]
pub fn extract_path_param(path: &str, pattern: &str) -> (r: Option<String>)
    ensures
        match r {
            Some(p) => path_param(path@, pattern@) == Some(p@),
            None => path_param(path@, pattern@) is None,
        },
{
    let have: Vec<Vec<char>> = chars_split(&to_chars(path), '/');
    let want: Vec<Vec<char>> = chars_split(&to_chars(pattern), '/');
    if have.len() != want.len() {
        assert(char_seqs(have@).len() == have@.len());
        assert(char_seqs(want@).len() == want@.len());
        return None;
    }
    let ghost ws = char_seqs(want@);
    let mut i: usize = 0;
    assert(ws.skip(0) == ws);
    while i < want.len()
        invariant
            i <= want@.len(),
            ws == char_seqs(want@),
            have@.len() == want@.len(),
            first_placeholder(ws) == i + first_placeholder(ws.skip(i as int)),
        decreases want@.len() - i,
    {
        let part: &Vec<char> = &want[i];
        proof {
            assert(ws.skip(i as int)[0] == want@[i as int]@);
            assert(ws.skip(i as int).drop_first() == ws.skip(i + 1));
        }
        if part.len() > 0 && part[0] == '{' && part[part.len() - 1] == '}' {
            assert(char_seqs(have@)[i as int] == have@[i as int]@);
            assert(is_placeholder(ws.skip(i as int)[0]));
            assert(first_placeholder(ws) == i);
            assert(char_seqs(have@).len() == have@.len());
            assert(ws.len() == want@.len());
            return Some(from_chars(&have[i]));
        }
        assert(!is_placeholder(ws.skip(i as int)[0]));
        i += 1;
    }
    assert(ws.skip(want@.len() as int).len() == 0);
    assert(ws.len() == want@.len());
    None
}

// ---------------------------------------------------------------------------
// Query parameters
// ---------------------------------------------------------------------------

/// The text that a percent-encoded text stands for, if it is UTF-8, as
/// `urlencoding::decode` gives it.
pub uninterp spec fn percent_decoded(text: Seq<char>) -> Option<Seq<char>>;

/// The text that a percent-encoded text stands for. Wraps
/// `urlencoding::decode`; the result depends on the text alone, and the
/// contract only gives it a name.
#[verifier::external_body]
pub(crate) fn percent_decode(text: &str) -> (r: Option<String>)
    ensures
        match r {
            Some(p) => percent_decoded(text@) == Some(p@),
            None => percent_decoded(text@) is None,
        },
{
    match urlencoding::decode(text) {
        Ok(s) => Some(s.into_owned()),
        Err(_) => None,
    }
}

/// A decoded text, or the empty text where the decoding fails.
pub open spec fn decoded_or_empty(text: Seq<char>) -> Seq<char> {
    match percent_decoded(text) {
        Some(t) => t,
        None => Seq::empty(),
    }
}

/// The parameter that a piece of a query spells: what stands before and
/// behind its first `=`, both decoded; a piece without `=` spells none.
pub open spec fn param_of(piece: Seq<char>) -> Option<(Seq<char>, Seq<char>)> {
    let at = position_of(piece, '=');
    if at >= piece.len() {
        None
    } else {
        Some((decoded_or_empty(piece.take(at)), decoded_or_empty(piece.skip(at + 1))))
    }
}

/// The parameters that the pieces spell, in order.
pub open spec fn params_of(pieces: Seq<Seq<char>>) -> Seq<(Seq<char>, Seq<char>)>
    decreases pieces.len(),
{
    if pieces.len() == 0 {
        Seq::empty()
    } else {
        let rest = params_of(pieces.drop_last());
        match param_of(pieces.last()) {
            Some(p) => rest.push(p),
            None => rest,
        }
    }
}

/// The parameters of a request target: those of the pieces, between `&`,
/// of what stands behind its first `?`.
pub open spec fn query_params(url: Seq<char>) -> Seq<(Seq<char>, Seq<char>)> {
    let at = position_of(url, '?');
    if at >= url.len() {
        Seq::empty()
    } else {
        params_of(split(url.skip(at + 1), '&'))
    }
}

/// The parameters of a request target, in order. Where a name stands more
/// than once, the last one counts.
pub fn parse_query_params(url: &str) -> (r: Vec<(String, String)>)
    ensures
        pairs(r@) == query_params(url@),
{
    let chars: Vec<char> = to_chars(url);
    let at: usize = chars_position(&chars, '?');
    let mut out: Vec<(String, String)> = Vec::new();
    if at >= chars.len() {
        assert(pairs(out@) =~= Seq::<(Seq<char>, Seq<char>)>::empty());
        return out;
    }
    let query: Vec<char> = chars_range(&chars, at + 1, chars.len());
    assert(chars@.subrange(at + 1, chars@.len() as int) == chars@.skip(at + 1));
    let pieces: Vec<Vec<char>> = chars_split(&query, '&');
    let ghost ps = char_seqs(pieces@);
    let mut i: usize = 0;
    assert(pairs(out@) =~= params_of(ps.take(0)));
    while i < pieces.len()
        invariant
            i <= pieces@.len(),
            ps == char_seqs(pieces@),
            pairs(out@) == params_of(ps.take(i as int)),
        decreases pieces@.len() - i,
    {
        let piece: &Vec<char> = &pieces[i];
        proof {
            assert(ps.take(i + 1).drop_last() == ps.take(i as int));
            assert(ps.take(i + 1).last() == piece@);
        }
        let eq: usize = chars_position(piece, '=');
        if eq < piece.len() {
            let key_text: String = from_chars(&chars_range(piece, 0, eq));
            let value_text: String = from_chars(&chars_range(piece, eq + 1, piece.len()));
            assert(piece@.subrange(0, eq as int) == piece@.take(eq as int));
            assert(piece@.subrange(eq + 1, piece@.len() as int) == piece@.skip(eq + 1));
            let key: String = match percent_decode(key_text.as_str()) {
                Some(k) => k,
                None => String::new(),
            };
            let value: String = match percent_decode(value_text.as_str()) {
                Some(v) => v,
                None => String::new(),
            };
            let ghost before = out@;
            let ghost kv = (key@, value@);
            out.push((key, value));
            assert(pairs(out@) == pairs(before).push(kv));
        }
        i += 1;
    }
    assert(ps.take(pieces@.len() as int) == ps);
    out
}

/// The value of the last parameter of the given name.
pub open spec fn last_value(params: Seq<(Seq<char>, Seq<char>)>, name: Seq<char>) -> Option<
    Seq<char>,
>
    decreases params.len(),
{
    if params.len() == 0 {
        None
    } else if params.last().0 == name {
        Some(params.last().1)
    } else {
        last_value(params.drop_last(), name)
    }
}

/// The value of a parameter: that of the last parameter of the name.
pub fn get_param(params: &Vec<(String, String)>, name: &str) -> (r: Option<String>)
    ensures
        match r {
            Some(v) => last_value(pairs(params@), name@) == Some(v@),
            None => last_value(pairs(params@), name@) is None,
        },
{
    let ghost ps = pairs(params@);
    let mut i: usize = params.len();
    assert(ps.take(i as int) == ps);
    while i > 0
        invariant
            i <= params@.len(),
            ps == pairs(params@),
            last_value(ps, name@) == last_value(ps.take(i as int), name@),
        decreases i,
    {
        proof {
            assert(ps.take(i as int).last() == (params@[i - 1].0@, params@[i - 1].1@));
            assert(ps.take(i as int).drop_last() == ps.take(i - 1));
        }
        if str_eq(params[i - 1].0.as_str(), name) {
            return Some(params[i - 1].1.clone());
        }
        i -= 1;
    }
    None
}

// ---------------------------------------------------------------------------
// Headers and responses
// ---------------------------------------------------------------------------

/// The headers that every response carries.
pub open spec fn cors_headers() -> Seq<(Seq<char>, Seq<char>)> {
    seq![
        ("Access-Control-Allow-Origin"@, "*"@),
        ("Access-Control-Allow-Methods"@, "GET, POST, PUT, DELETE, OPTIONS"@),
        (
            "Access-Control-Allow-Headers"@,
            "Content-Type, Authorization, X-API-Key, X-Requested-With"@,
        ),
        ("Access-Control-Expose-Headers"@, "Content-Length, Date, Server"@),
        ("Access-Control-Max-Age"@, "86400"@),
        ("Content-Type"@, "application/json"@),
    ]
}

/// The headers that every response carries.
pub fn create_cors_headers() -> (r: Vec<(String, String)>)
    ensures
        pairs(r@) == cors_headers(),
{
    let mut r: Vec<(String, String)> = Vec::new();
    r.push((str_to_string("Access-Control-Allow-Origin"), str_to_string("*")));
    r.push(
        (
            str_to_string("Access-Control-Allow-Methods"),
            str_to_string("GET, POST, PUT, DELETE, OPTIONS"),
        ),
    );
    r.push(
        (
            str_to_string("Access-Control-Allow-Headers"),
            str_to_string("Content-Type, Authorization, X-API-Key, X-Requested-With"),
        ),
    );
    r.push(
        (
            str_to_string("Access-Control-Expose-Headers"),
            str_to_string("Content-Length, Date, Server"),
        ),
    );
    r.push((str_to_string("Access-Control-Max-Age"), str_to_string("86400")));
    r.push((str_to_string("Content-Type"), str_to_string("application/json")));
    assert(pairs(r@) =~= cors_headers());
    r
}

/// The response with the given status and body and the fixed headers.
pub fn success_response(body: Vec<u8>, status_code: u16) -> (r: HttpResponse)
    ensures
        r.status_code == status_code,
        r.body == body,
        pairs(r.headers@) == cors_headers(),
        r.upgrade is None,
{
    HttpResponse { status_code, headers: create_cors_headers(), body, upgrade: None }
}

/// The response that reports a failure, with the given status and body and
/// the fixed headers.
pub fn error_response(status_code: u16, body: Vec<u8>) -> (r: HttpResponse)
    ensures
        r.status_code == status_code,
        r.body == body,
        pairs(r.headers@) == cors_headers(),
        r.upgrade is None,
{
    HttpResponse { status_code, headers: create_cors_headers(), body, upgrade: None }
}

/// The token of a header: what follows `Bearer ` in the value of a header
/// named `authorization`, whatever the case of the name.
pub open spec fn bearer_of(header: (Seq<char>, Seq<char>)) -> Option<Seq<char>> {
    if lowercase(header.0) == "authorization"@ && starts_with(header.1, "Bearer "@) {
        Some(header.1.skip(7))
    } else {
        None
    }
}

/// The token of the first header that has one.
pub open spec fn bearer_token(headers: Seq<(Seq<char>, Seq<char>)>) -> Option<Seq<char>>
    decreases headers.len(),
{
    if headers.len() == 0 {
        None
    } else {
        match bearer_of(headers[0]) {
            Some(t) => Some(t),
            None => bearer_token(headers.drop_first()),
        }
    }
}

/// The bearer token of a request.
#[verifier::loop_isolation(false)]
pub fn extract_bearer_token(headers: &Vec<(String, String)>) -> (r: Option<String>)
    ensures
        match r {
            Some(t) => bearer_token(pairs(headers@)) == Some(t@),
            None => bearer_token(pairs(headers@)) is None,
        },
{
    let ghost hs = pairs(headers@);
    let mut i: usize = 0;
    assert(hs.skip(0) == hs);
    proof {
        reveal_strlit("Bearer ");
    }
    while i < headers.len()
        invariant
            i <= headers@.len(),
            bearer_token(hs) == bearer_token(hs.skip(i as int)),
        decreases headers@.len() - i,
    {
        proof {
            assert(hs.skip(i as int)[0] == (headers@[i as int].0@, headers@[i as int].1@));
            assert(hs.skip(i as int).drop_first() == hs.skip(i + 1));
        }
        let name: String = to_lowercase(headers[i].0.as_str());
        if str_eq(name.as_str(), "authorization") {
            match crate::text::str_strip_prefix(headers[i].1.as_str(), "Bearer ") {
                Some(t) => {
                    return Some(t);
                },
                None => {},
            }
        }
        i += 1;
    }
    None
}

} // verus!

//! The pure parts of the image server: content types and file extensions of cached
//! images, the hash-keyed cache of proxied covers, and entity tags for conditional GETs.

use sha2::{Digest, Sha256};
use vstd::prelude::*;
use vstd::string::*;

use crate::text::{same_text, spec_trim, trim};

verus! {

/// The SHA-256 digest of `data`.
pub uninterp spec fn sha256_digest(data: Seq<u8>) -> Seq<u8>;

/// The SHA-256 digest of `data`, through `sha2`'s `Digest::digest`. Claimed: the digest is
/// the one `data` determines, and it is 32 bytes long.
#[verifier::external_body]
pub(crate) fn sha256(data: &[u8]) -> (r: Vec<u8>)
    ensures
        r@ == sha256_digest(data@),
        r@.len() == 32,
{
    Sha256::digest(data).to_vec()
}

/// The lowercase hexadecimal digit of `n` (below 16).
pub open spec fn hex_digit(n: int) -> char {
    if n < 10 {
        (48 + n) as char
    } else {
        (87 + n) as char
    }
}

/// `bytes` in lowercase hexadecimal, two digits per byte, high nibble first.
pub open spec fn spec_hex(bytes: Seq<u8>) -> Seq<char>
    decreases bytes.len(),
{
    if bytes.len() == 0 {
        Seq::empty()
    } else {
        spec_hex(bytes.drop_last()) + seq![hex_digit(bytes.last() as int / 16), hex_digit(bytes.last() as int % 16)]
    }
}

/// `bytes` in lowercase hexadecimal, through `hex::encode`, which writes each byte as two
/// lowercase hexadecimal digits, high nibble first.
#[verifier::external_body]
pub(crate) fn hex_encode(bytes: &[u8]) -> (r: String)
    ensures
        r@ == spec_hex(bytes@),
{
    hex::encode(bytes)
}

/// The content type of a cached image with extension `ext`.
pub open spec fn spec_content_type_for_ext(ext: Seq<char>) -> Seq<char> {
    if ext == "png"@ {
        "image/png"@
    } else if ext == "webp"@ {
        "image/webp"@
    } else if ext == "gif"@ {
        "image/gif"@
    } else if ext == "avif"@ {
        "image/avif"@
    } else if ext == "bmp"@ {
        "image/bmp"@
    } else {
        "image/jpeg"@
    }
}

/// The extension an image of content type `content_type` is cached under.
pub open spec fn spec_ext_for_content_type(content_type: Seq<char>) -> Seq<char> {
    if content_type == "image/png"@ {
        "png"@
    } else if content_type == "image/webp"@ {
        "webp"@
    } else if content_type == "image/gif"@ {
        "gif"@
    } else if content_type == "image/avif"@ {
        "avif"@
    } else if content_type == "image/bmp"@ {
        "bmp"@
    } else {
        "jpg"@
    }
}

/// The content type of a cached image with extension `ext`; JPEG for anything unknown.
pub fn content_type_for_ext(ext: &str) -> (r: String)
    ensures
        r@ == spec_content_type_for_ext(ext@),
{
    if same_text(ext, "png") {
        "image/png".to_owned()
    } else if same_text(ext, "webp") {
        "image/webp".to_owned()
    } else if same_text(ext, "gif") {
        "image/gif".to_owned()
    } else if same_text(ext, "avif") {
        "image/avif".to_owned()
    } else if same_text(ext, "bmp") {
        "image/bmp".to_owned()
    } else {
        "image/jpeg".to_owned()
    }
}

/// The extension an image of content type `content_type` is cached under; `jpg` for
/// anything unknown.
pub fn ext_for_content_type(content_type: &str) -> (r: &'static str)
    ensures
        r@ == spec_ext_for_content_type(content_type@),
{
    if same_text(content_type, "image/png") {
        "png"
    } else if same_text(content_type, "image/webp") {
        "webp"
    } else if same_text(content_type, "image/gif") {
        "gif"
    } else if same_text(content_type, "image/avif") {
        "avif"
    } else if same_text(content_type, "image/bmp") {
        "bmp"
    } else {
        "jpg"
    }
}

/// The extensions a proxied image can be cached under, in the order the cache is probed.
pub open spec fn proxy_extensions() -> Seq<Seq<char>> {
    seq!["jpg"@, "png"@, "webp"@, "gif"@, "avif"@, "bmp"@]
}

/// Every extension the cache uses survives the trip through its content type and back, and
/// every content type the cache stores survives the trip through its extension and back.
pub proof fn lemma_ext_content_type_round_trip(ext: Seq<char>)
    ensures
        proxy_extensions().contains(ext) ==> spec_ext_for_content_type(spec_content_type_for_ext(ext)) == ext,
        spec_content_type_for_ext(spec_ext_for_content_type(spec_content_type_for_ext(ext)))
            == spec_content_type_for_ext(ext),
{
    reveal_strlit("png");
    reveal_strlit("webp");
    reveal_strlit("gif");
    reveal_strlit("avif");
    reveal_strlit("bmp");
    reveal_strlit("jpg");
    reveal_strlit("image/png");
    reveal_strlit("image/webp");
    reveal_strlit("image/gif");
    reveal_strlit("image/avif");
    reveal_strlit("image/bmp");
    reveal_strlit("image/jpeg");
    assert("image/png"@[6] == 'p' && "image/gif"@[6] == 'g' && "image/bmp"@[6] == 'b');
    assert("image/webp"@[6] == 'w' && "image/avif"@[6] == 'a' && "image/jpeg"@[6] == 'j');
    assert("png"@[0] == 'p' && "gif"@[0] == 'g' && "bmp"@[0] == 'b' && "jpg"@[0] == 'j');
    assert("webp"@[0] == 'w' && "avif"@[0] == 'a');
    if proxy_extensions().contains(ext) {
        let k = choose|k: int| 0 <= k < proxy_extensions().len() && proxy_extensions()[k] == ext;
        assert(k == 0 || k == 1 || k == 2 || k == 3 || k == 4 || k == 5);
    }
}

/// Hex of the SHA-256 of `url`'s bytes: the name a proxied image is cached under.
pub fn proxy_hash(url: &str) -> (r: String)
    ensures
        r@ == spec_hex(sha256_digest(url.spec_bytes())),
{
    let digest = sha256(url.as_bytes());
    hex_encode(digest.as_slice())
}

/// Storage key of a proxied image: `proxy/{hash}.{ext}`.
pub fn proxy_key(hash: &str, ext: &str) -> (r: String)
    ensures
        r@ == "proxy/"@ + hash@ + "."@ + ext@,
{
    let mut key = "proxy/".to_owned();
    key.append(hash);
    key.append(".");
    key.append(ext);
    key
}

/// The storage keys a proxied image with hash `hash` may be cached under, with the
/// content type each one is served with, in the order the cache is probed.
pub fn proxy_cache_candidates(hash: &str) -> (r: Vec<(String, String)>)
    ensures
        r@.len() == proxy_extensions().len(),
        forall|k: int|
            0 <= k < r@.len() ==> (#[trigger] r@[k]).0@ == "proxy/"@ + hash@ + "."@ + proxy_extensions()[k]
                && r@[k].1@ == spec_content_type_for_ext(proxy_extensions()[k]),
{
    let exts: [&str; 6] = ["jpg", "png", "webp", "gif", "avif", "bmp"];
    let mut out: Vec<(String, String)> = Vec::new();
    let mut i: usize = 0;
    while i < 6
        invariant
            i <= 6,
            exts@ == seq!["jpg", "png", "webp", "gif", "avif", "bmp"],
            out@.len() == i,
            forall|k: int|
                0 <= k < i ==> (#[trigger] out@[k]).0@ == "proxy/"@ + hash@ + "."@ + proxy_extensions()[k]
                    && out@[k].1@ == spec_content_type_for_ext(proxy_extensions()[k]),
        decreases 6 - i,
    {
        let ext = exts[i];
        proof {
            assert(ext@ == proxy_extensions()[i as int]);
        }
        out.push((proxy_key(hash, ext), content_type_for_ext(ext)));
        i = i + 1;
    }
    out
}

/// The `Cache-Control` of every served image: the bytes behind a url never change.
pub const IMMUTABLE_CACHE: &'static str = "public, max-age=31536000, immutable";

/// The headers of a served image.
#[derive(Debug, Clone, PartialEq, Eq)]
pub struct ImageHeaders {
    pub content_type: String,
    pub cache_control: String,
    pub etag: String,
}

/// A successful (200) image response: its headers and its body.
#[derive(Debug, Clone, PartialEq, Eq)]
pub struct ImageResponse {
    pub headers: ImageHeaders,
    pub body: Vec<u8>,
}

/// The headers of an image served with `content_type` whose checksum is `checksum`:
/// (content type, cache control, entity tag).
pub open spec fn spec_image_headers(content_type: Seq<char>, checksum: Seq<char>) -> (Seq<char>, Seq<char>, Seq<char>) {
    (content_type, IMMUTABLE_CACHE@, "\""@ + checksum + "\""@)
}

/// The headers of `h` as plain text.
pub open spec fn headers_view(h: ImageHeaders) -> (Seq<char>, Seq<char>, Seq<char>) {
    (h.content_type@, h.cache_control@, h.etag@)
}

/// The response serving `bytes` with `content_type`: the headers, with the checksum of the
/// bytes as entity tag, and the bytes.
pub open spec fn spec_image_response(bytes: Seq<u8>, content_type: Seq<char>) -> ((Seq<char>, Seq<char>, Seq<char>), Seq<u8>) {
    (spec_image_headers(content_type, spec_hex(sha256_digest(bytes))), bytes)
}

/// The headers of an image served with `content_type` whose checksum is `checksum`.
pub fn image_headers(content_type: &str, checksum: &str) -> (r: ImageHeaders)
    ensures
        headers_view(r) == spec_image_headers(content_type@, checksum@),
{
    ImageHeaders {
        content_type: content_type.to_string(),
        cache_control: IMMUTABLE_CACHE.to_string(),
        etag: etag(checksum),
    }
}

/// The response serving `bytes` with `content_type` (a freshly proxied image).
pub fn respond_with_bytes(bytes: Vec<u8>, content_type: &str) -> (r: ImageResponse)
    ensures
        (headers_view(r.headers), r.body@) == spec_image_response(bytes@, content_type@),
{
    let checksum = checksum_of(bytes.as_slice());
    let headers = image_headers(content_type, checksum.as_str());
    ImageResponse { headers, body: bytes }
}

/// What a request for a proxied image with hash `hash` is answered from the cache: the
/// response for the first cached candidate, if any.
pub open spec fn proxy_answer(store: Map<Seq<char>, Seq<u8>>, hash: Seq<char>) -> Option<
    ((Seq<char>, Seq<char>, Seq<char>), Seq<u8>),
> {
    match first_cached(store, hash, proxy_extensions()) {
        Some((bytes, content_type)) => Some(spec_image_response(bytes, content_type)),
        None => None,
    }
}

/// Storage key `proxy/{hash}.{ext}` of a proxied image.
pub open spec fn proxy_key_of(hash: Seq<char>, ext: Seq<char>) -> Seq<char> {
    "proxy/"@ + hash + "."@ + ext
}

/// What probing the cache for a proxied image with hash `hash` finds, trying the
/// extensions `exts` in order: the bytes of the first key the store holds, with the
/// content type of its extension.
pub open spec fn first_cached(store: Map<Seq<char>, Seq<u8>>, hash: Seq<char>, exts: Seq<Seq<char>>) -> Option<
    (Seq<u8>, Seq<char>),
>
    decreases exts.len(),
{
    if exts.len() == 0 {
        None
    } else if store.contains_key(proxy_key_of(hash, exts[0])) {
        Some((store[proxy_key_of(hash, exts[0])], spec_content_type_for_ext(exts[0])))
    } else {
        first_cached(store, hash, exts.drop_first())
    }
}

proof fn lemma_proxy_key_injective(hash: Seq<char>, a: Seq<char>, b: Seq<char>)
    requires
        proxy_key_of(hash, a) == proxy_key_of(hash, b),
    ensures
        a == b,
{
    let p = "proxy/"@ + hash + "."@;
    assert(proxy_key_of(hash, a) =~= p + a);
    assert(proxy_key_of(hash, b) =~= p + b);
    assert((p + a).skip(p.len() as int) =~= a);
    assert((p + b).skip(p.len() as int) =~= b);
}

/// The cache hit of the image proxy: when a request for a url whose hash is `hash` found
/// nothing cached and stored the upstream `bytes`, of content type `content_type`, under
/// `proxy/{hash}.{ext}` (`ext` as `ext_for_content_type` gives it), the next request for
/// the same url, probing the candidates in order, finds exactly those bytes, served as the
/// content type of that extension, which is `content_type` itself for each of the image
/// types the cache knows; the answer is those bytes with that content type, the hex
/// SHA-256 of the bytes in quotes as entity tag, and the immutable cache control, with no
/// upstream request.
pub proof fn lemma_proxy_cache_hit(store: Map<Seq<char>, Seq<u8>>, hash: Seq<char>, content_type: Seq<char>, bytes: Seq<u8>)
    requires
        forall|k: int|
            0 <= k < proxy_extensions().len() ==> !store.contains_key(proxy_key_of(hash, #[trigger] proxy_extensions()[k])),
    ensures
        ({
            let ext = spec_ext_for_content_type(content_type);
            let served = spec_content_type_for_ext(ext);
            &&& first_cached(store.insert(proxy_key_of(hash, ext), bytes), hash, proxy_extensions()) == Some(
                (bytes, served),
            )
            &&& proxy_answer(store.insert(proxy_key_of(hash, ext), bytes), hash) == Some(
                ((served, IMMUTABLE_CACHE@, "\""@ + spec_hex(sha256_digest(bytes)) + "\""@), bytes),
            )
            &&& (exists|k: int|
                0 <= k < proxy_extensions().len() && content_type == spec_content_type_for_ext(
                    #[trigger] proxy_extensions()[k],
                )) ==> served == content_type
        }),
{
    reveal_strlit("png");
    reveal_strlit("webp");
    reveal_strlit("gif");
    reveal_strlit("avif");
    reveal_strlit("bmp");
    reveal_strlit("jpg");
    reveal_strlit("image/png");
    reveal_strlit("image/webp");
    reveal_strlit("image/gif");
    reveal_strlit("image/avif");
    reveal_strlit("image/bmp");
    reveal_strlit("image/jpeg");
    let exts = proxy_extensions();
    let ext = spec_ext_for_content_type(content_type);
    let key = proxy_key_of(hash, ext);
    let st = store.insert(key, bytes);
    assert(exts.contains(ext)) by {
        if ext == "jpg"@ {
            assert(exts[0] == ext);
        } else if ext == "png"@ {
            assert(exts[1] == ext);
        } else if ext == "webp"@ {
            assert(exts[2] == ext);
        } else if ext == "gif"@ {
            assert(exts[3] == ext);
        } else if ext == "avif"@ {
            assert(exts[4] == ext);
        } else {
            assert(exts[5] == ext);
        }
    }
    let e = choose|e: int| 0 <= e < exts.len() && exts[e] == ext;
    assert(forall|i: int, j: int| 0 <= i < j < 6 ==> exts[i][0] != exts[j][0]);
    assert forall|i: int| 0 <= i < exts.len() && i != e implies !st.contains_key(
        proxy_key_of(hash, #[trigger] exts[i]),
    ) by {
        if proxy_key_of(hash, exts[i]) == key {
            lemma_proxy_key_injective(hash, exts[i], ext);
        }
        assert(!store.contains_key(proxy_key_of(hash, exts[i])));
    }
    assert(st.contains_key(key) && st[key] == bytes);
    // probe the candidates one by one
    let t1 = exts.drop_first();
    let t2 = t1.drop_first();
    let t3 = t2.drop_first();
    let t4 = t3.drop_first();
    let t5 = t4.drop_first();
    assert(t1[0] == exts[1] && t2[0] == exts[2] && t3[0] == exts[3] && t4[0] == exts[4] && t5[0] == exts[5]);
    assert(t5.drop_first().len() == 0);
    if first_cached(st, hash, exts) != Some((bytes, spec_content_type_for_ext(ext))) {
        reveal_with_fuel(first_cached, 7);
        assert(false);
    }
    lemma_ext_content_type_round_trip(ext);
    if exists|k: int| 0 <= k < exts.len() && content_type == spec_content_type_for_ext(#[trigger] exts[k]) {
        let k = choose|k: int| 0 <= k < exts.len() && content_type == spec_content_type_for_ext(#[trigger] exts[k]);
        lemma_ext_content_type_round_trip(exts[k]);
    }
}

/// The entity tag of a served image whose checksum is `checksum`: the checksum in quotes.
pub fn etag(checksum: &str) -> (r: String)
    ensures
        r@ == "\""@ + checksum@ + "\""@,
{
    let mut tag = "\"".to_owned();
    tag.append(checksum);
    tag.append("\"");
    tag
}

/// The SHA-256 checksum, in hex, that identifies the bytes of a served image.
pub fn checksum_of(bytes: &[u8]) -> (r: String)
    ensures
        r@ == spec_hex(sha256_digest(bytes@)),
{
    let digest = sha256(bytes);
    hex_encode(digest.as_slice())
}

/// Number of quotes `s` starts with.
pub open spec fn leading_quotes(s: Seq<char>) -> nat
    decreases s.len(),
{
    if s.len() > 0 && s[0] == '"' {
        1 + leading_quotes(s.drop_first())
    } else {
        0
    }
}

/// Number of quotes `s` ends with.
pub open spec fn trailing_quotes(s: Seq<char>) -> nat
    decreases s.len(),
{
    if s.len() > 0 && s.last() == '"' {
        1 + trailing_quotes(s.drop_last())
    } else {
        0
    }
}

/// `s` without its leading and trailing quotes: `trim_matches('"')`.
pub open spec fn spec_trim_quotes(s: Seq<char>) -> Seq<char> {
    if leading_quotes(s) == s.len() {
        Seq::empty()
    } else {
        s.subrange(leading_quotes(s) as int, s.len() - trailing_quotes(s))
    }
}

proof fn lemma_leading_quotes(s: Seq<char>, i: int)
    requires
        0 <= i <= s.len(),
        forall|k: int| 0 <= k < i ==> #[trigger] s[k] == '"',
        i == s.len() || s[i] != '"',
    ensures
        leading_quotes(s) == i,
    decreases s.len(),
{
    if s.len() > 0 && s[0] == '"' {
        let t = s.drop_first();
        assert forall|k: int| 0 <= k < i - 1 implies #[trigger] t[k] == '"' by {
            assert(t[k] == s[k + 1]);
        }
        if i - 1 < t.len() {
            assert(t[i - 1] == s[i]);
        }
        lemma_leading_quotes(t, i - 1);
    }
}

proof fn lemma_trailing_quotes(s: Seq<char>, j: int)
    requires
        0 <= j <= s.len(),
        forall|k: int| j <= k < s.len() ==> #[trigger] s[k] == '"',
        j == 0 || s[j - 1] != '"',
    ensures
        trailing_quotes(s) == s.len() - j,
    decreases s.len(),
{
    if s.len() > 0 && s.last() == '"' {
        let t = s.drop_last();
        assert forall|k: int| j <= k < t.len() implies #[trigger] t[k] == '"' by {
            assert(t[k] == s[k]);
        }
        if j > 0 {
            assert(t[j - 1] == s[j - 1]);
        }
        lemma_trailing_quotes(t, j);
    }
}

/// `s` without its leading and trailing quotes.
pub fn trim_quotes(s: &str) -> (r: &str)
    ensures
        r@ == spec_trim_quotes(s@),
{
    let n = s.unicode_len();
    let mut i: usize = 0;
    loop
        invariant
            n == s@.len(),
            i <= n,
            forall|k: int| 0 <= k < i ==> #[trigger] s@[k] == '"',
        ensures
            i <= n,
            forall|k: int| 0 <= k < i ==> #[trigger] s@[k] == '"',
            i == n || s@[i as int] != '"',
        decreases n - i,
    {
        if i == n {
            break;
        }
        if s.get_char(i) != '"' {
            break;
        }
        i = i + 1;
    }
    proof {
        lemma_leading_quotes(s@, i as int);
    }
    if i == n {
        return s.substring_char(n, n);
    }
    let mut j: usize = n;
    loop
        invariant
            n == s@.len(),
            i < j <= n,
            s@[i as int] != '"',
            forall|k: int| j <= k < n ==> #[trigger] s@[k] == '"',
        ensures
            i < j <= n,
            forall|k: int| j <= k < n ==> #[trigger] s@[k] == '"',
            s@[j - 1] != '"',
        decreases j,
    {
        if s.get_char(j - 1) != '"' {
            break;
        }
        j = j - 1;
    }
    proof {
        lemma_trailing_quotes(s@, j as int);
    }
    s.substring_char(i, j)
}

/// Whether a conditional GET can be answered "not modified" without touching the store:
/// the image is downloaded (`status` is `done`) with a checksum, and the request's
/// `If-None-Match`, stripped of quotes, is that checksum.
pub fn is_not_modified(status: &str, checksum: Option<&str>, if_none_match: Option<&str>) -> (r: bool)
    ensures
        r == (status@ == "done"@ && checksum is Some && if_none_match is Some && spec_trim_quotes(
            if_none_match->0@,
        ) == checksum->0@),
{
    if !same_text(status, "done") {
        return false;
    }
    match (checksum, if_none_match) {
        (Some(sum), Some(header)) => same_text(trim_quotes(header), sum),
        _ => false,
    }
}

/// Index of the first `;` in `s`, or its length.
pub open spec fn first_semicolon(s: Seq<char>) -> int
    decreases s.len(),
{
    if s.len() == 0 {
        0
    } else if s[0] == ';' {
        0
    } else {
        1 + first_semicolon(s.drop_first())
    }
}

proof fn lemma_first_semicolon(s: Seq<char>, i: int)
    requires
        0 <= i <= s.len(),
        forall|k: int| 0 <= k < i ==> #[trigger] s[k] != ';',
        i == s.len() || s[i] == ';',
    ensures
        first_semicolon(s) == i,
    decreases s.len(),
{
    if s.len() > 0 && s[0] != ';' {
        let t = s.drop_first();
        assert forall|k: int| 0 <= k < i - 1 implies #[trigger] t[k] != ';' by {
            assert(t[k] == s[k + 1]);
        }
        if i - 1 < t.len() {
            assert(t[i - 1] == s[i]);
        }
        lemma_first_semicolon(t, i - 1);
    }
}

/// The media type of an upstream `Content-Type` header: what precedes its first `;`,
/// trimmed; `image/jpeg` when there is no header.
pub fn media_type(header: Option<&str>) -> (r: String)
    ensures
        header is None ==> r@ == "image/jpeg"@,
        header matches Some(h) ==> r@ == spec_trim(h@.subrange(0, first_semicolon(h@))),
{
    match header {
        None => "image/jpeg".to_owned(),
        Some(h) => {
            let n = h.unicode_len();
            let mut i: usize = 0;
            loop
                invariant
                    n == h@.len(),
                    i <= n,
                    forall|k: int| 0 <= k < i ==> #[trigger] h@[k] != ';',
                ensures
                    i <= n,
                    forall|k: int| 0 <= k < i ==> #[trigger] h@[k] != ';',
                    i == n || h@[i as int] == ';',
                decreases n - i,
            {
                if i == n {
                    break;
                }
                if h.get_char(i) == ';' {
                    break;
                }
                i = i + 1;
            }
            proof {
                lemma_first_semicolon(h@, i as int);
            }
            trim(h.substring_char(0, i)).to_owned()
        },
    }
}

/// How a request for a chapter page or a cover is answered once the image has been
/// downloaded, or given up on.
#[derive(Debug, Clone, PartialEq, Eq)]
pub enum ImageAnswer {
    /// The stored bytes, served with their content type and checksum.
    Stored { storage_key: String, content_type: String, checksum: String },
    /// A temporary redirect to where the image was scraped from.
    Redirect(String),
}

/// The answer to an image request after the download attempt: the stored image when it
/// is downloaded (`status` is `done`) with a storage key, a content type and a checksum;
/// otherwise a redirect to `source_url`, so that one failed image degrades to the raw
/// link instead of breaking.
pub fn image_answer(
    status: &str,
    storage_key: &Option<String>,
    content_type: &Option<String>,
    checksum: &Option<String>,
    source_url: &str,
) -> (r: ImageAnswer)
    ensures
        match r {
            ImageAnswer::Stored { storage_key: k, content_type: t, checksum: c } => {
                &&& status@ == "done"@
                &&& storage_key matches Some(k0) && k@ == k0@
                &&& content_type matches Some(t0) && t@ == t0@
                &&& checksum matches Some(c0) && c@ == c0@
            },
            ImageAnswer::Redirect(u) => {
                &&& u@ == source_url@
                &&& !(status@ == "done"@ && storage_key is Some && content_type is Some && checksum is Some)
            },
        },
{
    if same_text(status, "done") {
        match (storage_key, content_type, checksum) {
            (Some(k), Some(t), Some(c)) => {
                return ImageAnswer::Stored { storage_key: k.clone(), content_type: t.clone(), checksum: c.clone() };
            },
            _ => {},
        }
    }
    ImageAnswer::Redirect(source_url.to_string())
}

/// The referer a cover is downloaded with: the url of the manga's primary source, or the
/// cover's own url when the manga has no primary source.
pub fn cover_referer(primary_source_url: Option<String>, cover_source_url: String) -> (r: String)
    ensures
        r == match primary_source_url {
            Some(u) => u,
            None => cover_source_url,
        },
{
    match primary_source_url {
        Some(u) => u,
        None => cover_source_url,
    }
}

} // verus!

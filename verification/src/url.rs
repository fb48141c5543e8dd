//! Remote URLs of videos.

use crate::path;
use crate::path::PathBuf;
use crate::path_laws;
use crate::text;
use percent_encoding::AsciiSet;
use vstd::prelude::*;
use vstd::string::*;
use vstd::utf8::*;

verus! {

/// The type of byte sets of the crate `percent_encoding`.
#[verifier::external_type_specification]
#[verifier::external_body]
pub struct ExAsciiSet(percent_encoding::AsciiSet);

/// The bytes that a byte set of the crate `percent_encoding` holds.
pub uninterp spec fn ascii_set_bytes(set: AsciiSet) -> Set<u8>;

/// An ASCII letter or digit.
pub open spec fn is_alphanumeric(b: u8) -> bool {
    (0x30 <= b <= 0x39) || (0x41 <= b <= 0x5a) || (0x61 <= b <= 0x7a)
}

/// The ASCII bytes that are neither letters nor digits.
pub open spec fn non_alphanumeric_bytes() -> Set<u8> {
    Set::new(|b: u8| b < 0x80 && !is_alphanumeric(b))
}

/// Reads the constant `percent_encoding::NON_ALPHANUMERIC`: it holds the ASCII bytes that are
/// neither letters nor digits.
#[verifier::external_body]
fn non_alphanumeric() -> (r: &'static AsciiSet)
    ensures
        ascii_set_bytes(*r) == non_alphanumeric_bytes(),
{
    percent_encoding::NON_ALPHANUMERIC
}

/// `percent_encoding::AsciiSet::remove` returns the set without an ASCII byte.
pub assume_specification[ AsciiSet::remove ](set: &AsciiSet, byte: u8) -> (r: AsciiSet)
    requires
        byte < 0x80,
    ensures
        ascii_set_bytes(r) == ascii_set_bytes(*set).remove(byte),
;

/// Calls `std::boxed::Box::leak`, which gives a reference to the value in the box, for as long as
/// the program runs.
#[verifier::external_body]
fn leak_set(set: Box<AsciiSet>) -> (r: &'static AsciiSet)
    ensures
        *r == *set,
{
    Box::leak(set)
}

/// The upper case hexadecimal digit of a number below 16.
pub open spec fn hex_digit(n: u8) -> char {
    if n < 10 {
        (0x30 + n) as char
    } else {
        (0x37 + n) as char
    }
}

/// A byte that is not ASCII or in `set` as `%` and two hexadecimal digits; any other byte as the
/// character that it encodes.
pub open spec fn encoded_byte(b: u8, set: Set<u8>) -> Seq<char> {
    if b >= 0x80 || set.contains(b) {
        seq!['%', hex_digit(b / 16), hex_digit(b % 16)]
    } else {
        seq![b as char]
    }
}

/// The percent-encoding of `bytes` in which the bytes of `set` are encoded.
pub open spec fn percent_encoded(bytes: Seq<u8>, set: Set<u8>) -> Seq<char>
    decreases bytes.len(),
{
    if bytes.len() == 0 {
        Seq::empty()
    } else {
        encoded_byte(bytes[0], set) + percent_encoded(bytes.skip(1), set)
    }
}

/// Calls `percent_encoding::utf8_percent_encode` and collects what it yields: the bytes of the
/// UTF-8 encoding of `input`, each that is not ASCII or in `set` as `%` and two upper case
/// hexadecimal digits, the others unchanged.
#[verifier::external_body]
fn percent_encode(input: &str, set: &'static AsciiSet) -> (r: String)
    ensures
        r@ == percent_encoded(encode_utf8(input@), ascii_set_bytes(*set)),
{
    percent_encoding::utf8_percent_encode(input, set).to_string()
}

/// A byte that stands for itself in the path of a URL.
pub open spec fn is_url_safe(b: u8) -> bool {
    is_alphanumeric(b) || b == 0x2d || b == 0x5f || b == 0x2e || b == 0x7e || b == 0x2f
}

/// The ASCII bytes that must be encoded in the path of a URL.
pub open spec fn needs_encoding() -> Set<u8> {
    Set::new(|b: u8| b < 0x80 && !is_url_safe(b))
}

/// Whether a byte stands for itself in the path of a URL: letters, digits, `-`, `_`, `.`, `~`
/// and `/` do.
pub fn is_url_safe_byte(byte: u8) -> (r: bool)
    ensures
        r == is_url_safe(byte),
{
    (0x30 <= byte && byte <= 0x39) || (0x41 <= byte && byte <= 0x5a) || (0x61 <= byte && byte
        <= 0x7a) || byte == 0x2d || byte == 0x5f || byte == 0x2e || byte == 0x7e || byte == 0x2f
}

/// The set of ASCII bytes that must be encoded in the path of a URL: all but letters, digits,
/// `-`, `_`, `.`, `~` and `/`. Every call allocates a set that is never freed.
pub fn encoding_set() -> (r: &'static AsciiSet)
    ensures
        ascii_set_bytes(*r) == needs_encoding(),
{
    let set = non_alphanumeric().remove(0x2d).remove(0x5f).remove(0x2e).remove(0x7e).remove(0x2f);
    assert(ascii_set_bytes(set) =~= needs_encoding());
    leak_set(Box::new(set))
}

/// The bytes that stand for themselves and the bytes that are encoded are complementary among
/// ASCII; other bytes do not stand for themselves.
pub proof fn safe_bytes_complement_encoded(b: u8)
    ensures
        is_url_safe(b) <==> b < 0x80 && !needs_encoding().contains(b),
{
}

/// `bytes` as characters, one for each byte.
pub open spec fn ascii_chars(bytes: Seq<u8>) -> Seq<char> {
    bytes.map_values(|b: u8| b as char)
}

/// Encoding bytes that stand for themselves changes nothing.
pub proof fn safe_bytes_unchanged(bytes: Seq<u8>)
    requires
        forall|i: int| 0 <= i < bytes.len() ==> is_url_safe(#[trigger] bytes[i]),
    ensures
        percent_encoded(bytes, needs_encoding()) == ascii_chars(bytes),
    decreases bytes.len(),
{
    if bytes.len() > 0 {
        let rest = bytes.skip(1);
        assert forall|i: int| 0 <= i < rest.len() implies is_url_safe(#[trigger] rest[i]) by {
            assert(rest[i] == bytes[i + 1]);
        }
        safe_bytes_unchanged(rest);
        assert(is_url_safe(bytes[0]));
        assert(percent_encoded(bytes, needs_encoding()) =~= ascii_chars(bytes));
    } else {
        assert(percent_encoded(bytes, needs_encoding()) =~= ascii_chars(bytes));
    }
}

/// A string whose encoding is ASCII has one character for each byte.
proof fn lemma_ascii_text(t: Seq<char>)
    requires
        forall|i: int| 0 <= i < encode_utf8(t).len() ==> #[trigger] encode_utf8(t)[i] < 0x80,
    ensures
        t == ascii_chars(encode_utf8(t)),
{
    let bytes = encode_utf8(t);
    let c = ascii_chars(bytes);
    assert(is_ascii_chars(c)) by {
        assert forall|i: int| 0 <= i < c.len() implies '\0' <= #[trigger] c[i] <= '\u{7f}' by {
            assert(bytes[i] < 0x80);
        }
    }
    is_ascii_chars_encode_utf8(c);
    assert(encode_utf8(c) =~= bytes) by {
        assert forall|i: int| 0 <= i < bytes.len() implies encode_utf8(c)[i] == bytes[i] by {
            assert(bytes[i] < 0x80);
            assert(c[i] == bytes[i] as char);
        }
    }
    text::encode_utf8_injective(t, c);
}

/// `%` or a character that stands for itself in the path of a URL.
pub open spec fn is_encoded_char(c: char) -> bool {
    c == '%' || ((c as u32) < 0x80 && is_url_safe(c as u8))
}

/// An encoded text consists of characters that stand for themselves and of `%`.
pub proof fn encoded_text_is_safe(bytes: Seq<u8>)
    ensures
        forall|i: int|
            0 <= i < percent_encoded(bytes, needs_encoding()).len() ==> is_encoded_char(
                #[trigger] percent_encoded(bytes, needs_encoding())[i],
            ),
    decreases bytes.len(),
{
    if bytes.len() > 0 {
        let head = encoded_byte(bytes[0], needs_encoding());
        let tail = percent_encoded(bytes.skip(1), needs_encoding());
        encoded_text_is_safe(bytes.skip(1));
        lemma_hex_digit((bytes[0] / 16) as u8);
        lemma_hex_digit((bytes[0] % 16) as u8);
        assert forall|i: int| 0 <= i < (head + tail).len() implies is_encoded_char(
            #[trigger] (head + tail)[i],
        ) by {
            if i >= head.len() {
                assert((head + tail)[i] == tail[i - head.len()]);
            } else {
                assert((head + tail)[i] == head[i]);
            }
        }
    }
}

proof fn lemma_hex_digit(n: u8)
    requires
        n < 16,
    ensures
        hex_digit(n) as u32 == (if n < 10 {
            0x30 + n
        } else {
            0x37 + n
        }),
        hex_digit(n) != '%',
        is_url_safe(hex_digit(n) as u8),
{
}

/// Different texts have different encodings.
pub proof fn encoding_is_injective(a: Seq<u8>, b: Seq<u8>)
    requires
        percent_encoded(a, needs_encoding()) == percent_encoded(b, needs_encoding()),
    ensures
        a == b,
    decreases a.len(),
{
    let set = needs_encoding();
    let x = percent_encoded(a, set);
    let y = percent_encoded(b, set);
    if a.len() == 0 {
        if b.len() > 0 {
            assert(y.len() >= encoded_byte(b[0], set).len());
        }
        assert(a =~= b);
    } else if b.len() == 0 {
        assert(x.len() >= encoded_byte(a[0], set).len());
    } else {
        let p = encoded_byte(a[0], set);
        let q = encoded_byte(b[0], set);
        assert(x[0] == p[0]);
        assert(y[0] == q[0]);
        assert(p.len() == q.len());
        if p.len() == 3 {
            assert(x[1] == p[1] && x[2] == p[2]);
            assert(y[1] == q[1] && y[2] == q[2]);
            lemma_hex_digit((a[0] / 16) as u8);
            lemma_hex_digit((a[0] % 16) as u8);
            lemma_hex_digit((b[0] / 16) as u8);
            lemma_hex_digit((b[0] % 16) as u8);
        }
        assert(a[0] == b[0]);
        assert(percent_encoded(a.skip(1), set) =~= x.skip(p.len() as int));
        assert(percent_encoded(b.skip(1), set) =~= y.skip(q.len() as int));
        encoding_is_injective(a.skip(1), b.skip(1));
        assert(a =~= seq![a[0]] + a.skip(1));
        assert(b =~= seq![b[0]] + b.skip(1));
    }
}

/// Why a video has no remote URL.
#[derive(Debug, Clone, Copy, PartialEq, Eq, Structural)]
pub enum UrlError {
    /// The video does not lie below the directory that the URL stands for.
    OutsidePrefix,
    /// The path below that directory is not UTF-8.
    NotUtf8,
}

/// The remote URL of the video at `video`: the base URL and the encoded path below `replace`.
pub open spec fn remote_url(
    base_url: Seq<char>,
    replace: Seq<u8>,
    video: Seq<u8>,
) -> Result<Seq<char>, UrlError> {
    match path::path_strip_prefix(video, replace) {
        None => Err(UrlError::OutsidePrefix),
        Some(rest) => if valid_utf8(rest) {
            Ok(base_url + seq!['/'] + percent_encoded(rest, needs_encoding()))
        } else {
            Err(UrlError::NotUtf8)
        },
    }
}

/// Videos at different paths below the same prefix have different URLs.
pub proof fn remote_urls_differ(base_url: Seq<char>, replace: Seq<u8>, a: Seq<u8>, b: Seq<u8>)
    requires
        remote_url(base_url, replace, a) is Ok,
        remote_url(base_url, replace, a) == remote_url(base_url, replace, b),
    ensures
        path::components(a) == path::components(b),
{
    let x = path::path_strip_prefix(a, replace)->Some_0;
    let y = path::path_strip_prefix(b, replace)->Some_0;
    let n = base_url.len() as int + 1;
    let u = remote_url(base_url, replace, a)->Ok_0;
    assert(u.skip(n) =~= percent_encoded(x, needs_encoding()));
    assert(u.skip(n) =~= percent_encoded(y, needs_encoding()));
    encoding_is_injective(x, y);
    path_laws::strip_prefix_components(a, replace);
    path_laws::strip_prefix_components(b, replace);
}

/// The remote URL of a video. `set` holds the bytes to encode.
pub fn build_remote_url(
    base_url: &str,
    replace_path: &PathBuf,
    video_path: &PathBuf,
    set: &'static AsciiSet,
) -> (r: Result<String, UrlError>)
    requires
        ascii_set_bytes(*set) == needs_encoding(),
    ensures
        r matches Ok(url) ==> remote_url(base_url@, replace_path@, video_path@) == Ok::<
            Seq<char>,
            UrlError,
        >(url@),
        r matches Err(e) ==> remote_url(base_url@, replace_path@, video_path@) == Err::<
            Seq<char>,
            UrlError,
        >(e),
{
    let relative_path = match video_path.strip_prefix(replace_path) {
        Some(p) => p,
        None => {
            return Err(UrlError::OutsidePrefix);
        },
    };
    let relative = match relative_path.to_str() {
        Some(t) => t,
        None => {
            return Err(UrlError::NotUtf8);
        },
    };
    let mut url: String = base_url.to_owned();
    url.append("/");
    proof {
        reveal_strlit("/");
        assert("/"@ =~= seq!['/']);
    }
    if all_url_safe(relative.as_bytes()) {
        proof {
            safe_bytes_unchanged(relative_path@);
            lemma_ascii_text(relative@);
        }
        url.append(relative);
    } else {
        url.append(percent_encode(relative, set).as_str());
    }
    Ok(url)
}

fn all_url_safe(bytes: &[u8]) -> (r: bool)
    ensures
        r == (forall|i: int| 0 <= i < bytes@.len() ==> is_url_safe(#[trigger] bytes@[i])),
{
    let mut i: usize = 0;
    while i < bytes.len()
        invariant
            i <= bytes.len(),
            forall|k: int| 0 <= k < i ==> is_url_safe(#[trigger] bytes@[k]),
        decreases bytes.len() - i,
    {
        if !is_url_safe_byte(bytes[i]) {
            return false;
        }
        i = i + 1;
    }
    true
}

/// `t` without the slashes at its end.
pub open spec fn without_trailing_slashes(t: Seq<char>) -> Seq<char>
    decreases t.len(),
{
    if t.len() > 0 && t.last() == '/' {
        without_trailing_slashes(t.drop_last())
    } else {
        t
    }
}

/// Removing trailing slashes leaves no slash at the end, and removes nothing but slashes.
pub proof fn no_trailing_slashes_left(t: Seq<char>)
    ensures
        without_trailing_slashes(t).len() == 0 || without_trailing_slashes(t).last() != '/',
        without_trailing_slashes(t).is_prefix_of(t),
        forall|i: int| without_trailing_slashes(t).len() <= i < t.len() ==> t[i] == '/',
    decreases t.len(),
{
    if t.len() > 0 && t.last() == '/' {
        no_trailing_slashes_left(t.drop_last());
        assert(without_trailing_slashes(t) =~= t.subrange(
            0,
            without_trailing_slashes(t).len() as int,
        ));
        assert forall|i: int| without_trailing_slashes(t).len() <= i < t.len() implies t[i]
            == '/' by {
            if i < t.len() - 1 {
                assert(t.drop_last()[i] == t[i]);
            }
        }
    } else {
        assert(t =~= t.subrange(0, t.len() as int));
    }
}

/// The base URL of a configuration: its head without trailing slashes.
pub fn base_url(head: &str) -> (r: &str)
    ensures
        r@ == without_trailing_slashes(head@),
{
    let mut n: usize = head.unicode_len();
    assert(head@.take(n as int) =~= head@);
    while n > 0 && head.get_char(n - 1) == '/'
        invariant
            n <= head@.len(),
            without_trailing_slashes(head@.take(n as int)) == without_trailing_slashes(head@),
        decreases n,
    {
        assert(head@.take(n as int).drop_last() =~= head@.take(n - 1));
        n = n - 1;
    }
    assert(head@.take(n as int) =~= head@.subrange(0, n as int));
    head.substring_char(0, n)
}

/// The characters that stand for themselves are the ASCII letters and digits and `-`, `_`, `.`,
/// `~` and `/`.
pub proof fn safe_characters(b: u8)
    ensures
        is_url_safe(b) <==> ('0' <= b as char <= '9') || ('A' <= b as char <= 'Z') || ('a'
            <= b as char <= 'z') || b as char == '-' || b as char == '_' || b as char == '.' || b
            as char == '~' || b as char == '/',
{
}

/// A byte that stands for itself is encoded as its character, any other byte as `%` and its two
/// upper case hexadecimal digits.
pub proof fn encoding_of_one_byte(b: u8)
    ensures
        is_url_safe(b) ==> percent_encoded(seq![b], needs_encoding()) == seq![b as char],
        !is_url_safe(b) ==> percent_encoded(seq![b], needs_encoding()) == seq![
            '%',
            "0123456789ABCDEF"@[(b / 16) as int],
            "0123456789ABCDEF"@[(b % 16) as int],
        ],
{
    reveal_strlit("0123456789ABCDEF");
    let s = seq![b];
    assert(s.skip(1) =~= Seq::empty());
    assert(percent_encoded(s.skip(1), needs_encoding()) =~= Seq::empty());
    assert(percent_encoded(s, needs_encoding()) =~= encoded_byte(b, needs_encoding()));
    lemma_digits((b / 16) as u8);
    lemma_digits((b % 16) as u8);
}

proof fn lemma_digits(n: u8)
    requires
        n < 16,
    ensures
        hex_digit(n) == "0123456789ABCDEF"@[n as int],
{
    reveal_strlit("0123456789ABCDEF");
    lemma_hex_digit(n);
}

/// Bytes are encoded one after the other, independently of each other.
pub proof fn encoding_of_parts(a: Seq<u8>, b: Seq<u8>, set: Set<u8>)
    ensures
        percent_encoded(a + b, set) == percent_encoded(a, set) + percent_encoded(b, set),
        percent_encoded(Seq::<u8>::empty(), set).len() == 0,
    decreases a.len(),
{
    if a.len() == 0 {
        assert(a + b =~= b);
        assert(percent_encoded(a, set) + percent_encoded(b, set) =~= percent_encoded(b, set));
    } else {
        encoding_of_parts(a.skip(1), b, set);
        assert((a + b).skip(1) =~= a.skip(1) + b);
        assert(percent_encoded(a + b, set) =~= percent_encoded(a, set) + percent_encoded(b, set));
    }
}

/// The remote URL of a path below `replace` is the base URL, a slash and the encoding of that path
/// as it was joined on, if that is UTF-8.
pub proof fn remote_url_of_joined(base_url: Seq<char>, replace: Seq<u8>, r: Seq<u8>)
    requires
        path_laws::is_trimmed(r),
    ensures
        valid_utf8(r) ==> remote_url(base_url, replace, path::path_join(replace, r)) == Ok::<
            Seq<char>,
            UrlError,
        >(base_url + seq!['/'] + percent_encoded(r, needs_encoding())),
        !valid_utf8(r) ==> remote_url(base_url, replace, path::path_join(replace, r)) == Err::<
            Seq<char>,
            UrlError,
        >(UrlError::NotUtf8),
{
    path_laws::join_then_strip_prefix(replace, r);
}

/// A URL is the base URL, a slash and the encoding of a path whose components, after those of
/// `replace`, are those of the video. A video has no URL outside of `replace`.
pub proof fn remote_url_leads_to_video(base_url: Seq<char>, replace: Seq<u8>, video: Seq<u8>)
    ensures
        remote_url(base_url, replace, video) matches Ok(u) ==> exists|r: Seq<u8>|
            valid_utf8(r) && u == base_url + seq!['/'] + #[trigger] percent_encoded(
                r,
                needs_encoding(),
            ) && path::components(replace) + path::components(r) == path::components(video),
        remote_url(base_url, replace, video) == Err::<Seq<char>, UrlError>(UrlError::OutsidePrefix)
            <==> !path::components(replace).is_prefix_of(path::components(video)),
        remote_url(base_url, replace, video) == Err::<Seq<char>, UrlError>(UrlError::NotUtf8)
            ==> exists|r: Seq<u8>|
            !valid_utf8(r) && path::components(replace) + #[trigger] path::components(r)
                == path::components(video),
{
    if path::path_starts_with(video, replace) {
        path_laws::strip_prefix_components(video, replace);
        let rest = path::path_strip_prefix(video, replace)->Some_0;
        if valid_utf8(rest) {
            assert(base_url + seq!['/'] + percent_encoded(rest, needs_encoding()) == remote_url(
                base_url,
                replace,
                video,
            )->Ok_0);
        } else {
            assert(path::components(replace) + path::components(rest) == path::components(video));
        }
    }
}

/// The URL of the directory `replace` itself is the base URL and a slash.
pub proof fn remote_url_of_prefix(base_url: Seq<char>, replace: Seq<u8>, video: Seq<u8>)
    requires
        path::components(video) == path::components(replace),
    ensures
        remote_url(base_url, replace, video) == Ok::<Seq<char>, UrlError>(base_url.push('/')),
{
    path_laws::strip_prefix_of_equal(video, replace);
    encode_utf8_valid_utf8(Seq::<char>::empty());
    assert(encode_utf8(Seq::<char>::empty()) =~= Seq::<u8>::empty());
    assert(base_url + seq!['/'] + percent_encoded(Seq::<u8>::empty(), needs_encoding())
        =~= base_url.push('/'));
}

/// The URL of a video that was joined onto the prefix is the base URL, a slash and the encoding of
/// what was joined on.
pub proof fn built_url(
    base: &str,
    replace_path: &PathBuf,
    video_path: &PathBuf,
    set: &'static AsciiSet,
    rest: Seq<u8>,
    r: Result<String, UrlError>,
)
    requires
        call_ensures(build_remote_url, (base, replace_path, video_path, set), r),
        path_laws::is_trimmed(rest),
        valid_utf8(rest),
        video_path@ == path::path_join(replace_path@, rest),
    ensures
        r matches Ok(u) && u@ == base@ + seq!['/'] + percent_encoded(rest, needs_encoding()),
{
    remote_url_of_joined(base@, replace_path@, rest);
}

/// A base URL does not end with a slash, and putting slashes at its end gives the head again.
pub proof fn base_url_of_head(head: &str, r: &str)
    requires
        call_ensures(base_url, (head,), r),
    ensures
        r@.is_prefix_of(head@),
        r@.len() == 0 || r@[r@.len() - 1] != '/',
        forall|i: int| r@.len() <= i < head@.len() ==> head@[i] == '/',
{
    no_trailing_slashes_left(head@);
}

} // verus!

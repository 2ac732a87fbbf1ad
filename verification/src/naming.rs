use vstd::prelude::*;
use vstd::string::*;

verus! {

// ---------------------------------------------------------------------------
// Extension inference
// ---------------------------------------------------------------------------

/// What `char::is_alphanumeric` returns for a character; a Unicode property
/// determined by the character alone.
pub uninterp spec fn is_alphanumeric_char(c: char) -> bool;

/// Relies on `char::is_alphanumeric` of std: whether the character is in the
/// Unicode Alphabetic or numeric categories, a property of the character alone.
#[verifier::external_body]
fn is_alphanumeric_exec(c: char) -> (r: bool)
    ensures
        r == is_alphanumeric_char(c),
{
    c.is_alphanumeric()
}

/// Position of the last `.` at or before index `i`, if any.
pub open spec fn last_dot_from(t: Seq<char>, i: int) -> Option<int>
    decreases i + 1 when i < t.len()
{
    if i < 0 {
        None
    } else if t[i] == '.' {
        Some(i)
    } else {
        last_dot_from(t, i - 1)
    }
}

/// The inferred extension of a URL: the suffix from the last dot onward,
/// accepted only when every character after the dot is alphanumeric.
pub open spec fn ext_spec(t: Seq<char>) -> Option<Seq<char>> {
    match last_dot_from(t, t.len() - 1) {
        None => None,
        Some(d) => if forall|k: int| d < k < t.len() ==> is_alphanumeric_char(t[k]) {
            Some(t.subrange(d, t.len() as int))
        } else {
            None
        },
    }
}

/// Extract the extension of a path-like string, dot included: the suffix from
/// the last `.`, accepted only if everything after the dot is alphanumeric
/// (so a trailing query string such as `?x=1` defeats the inference).
pub fn get_path_ext(url: &str) -> (r: Option<&str>)
    ensures
        (match r {
            Some(e) => ext_spec(url@) == Some(e@),
            None => ext_spec(url@) is None,
        }),
{
    let n = url.unicode_len();
    let ghost t = url@;
    // scan backward for the last dot
    let mut i: usize = n;
    while i > 0 && url.get_char(i - 1) != '.'
        invariant
            n == t.len(),
            i <= n,
            t == url@,
            last_dot_from(t, n - 1) == last_dot_from(t, i - 1),
        decreases i,
    {
        assert(last_dot_from(t, i - 1) == last_dot_from(t, i - 2));
        i = i - 1;
    }
    if i == 0 {
        assert(last_dot_from(t, n - 1) is None);
        return None;
    }
    let d = i - 1;
    assert(last_dot_from(t, n - 1) == Some(d as int));
    // every character after the dot must be alphanumeric
    let mut j: usize = d + 1;
    while j < n
        invariant
            n == t.len(),
            t == url@,
            d < j <= n,
            last_dot_from(t, n - 1) == Some(d as int),
            forall|k: int| d < k < j ==> is_alphanumeric_char(t[k]),
        decreases n - j,
    {
        if !is_alphanumeric_exec(url.get_char(j)) {
            assert(ext_spec(t) is None);
            return None;
        }
        j = j + 1;
    }
    let ext = url.substring_char(d, n);
    assert(ext_spec(t) == Some(t.subrange(d as int, n as int)));
    Some(ext)
}

// ---------------------------------------------------------------------------
// SHA-1 digest and hex encoding
// ---------------------------------------------------------------------------

/// The SHA-1 digest of a byte sequence; determined by the bytes alone.
pub uninterp spec fn sha1_of(bytes: Seq<u8>) -> Seq<u8>;

/// Relies on `sha1::Sha1` (through the `Digest` trait it re-exports): the
/// SHA-1 digest of the input, a 20-byte value determined by the bytes alone.
#[verifier::external_body]
fn sha1_digest(bytes: &[u8]) -> (r: Vec<u8>)
    ensures
        r@ == sha1_of(bytes@),
        r@.len() == 20,
{
    <sha1::Sha1 as sha1::Digest>::digest(bytes).to_vec()
}

/// Relies on `String::push` of std: appends the character to the string.
#[verifier::external_body]
fn push_char(s: &mut String, c: char)
    ensures
        final(s)@ == old(s)@.push(c),
{
    s.push(c)
}

/// The lower-case hexadecimal digit for a value below 16.
pub open spec fn hex_digit(n: int) -> char
    recommends
        0 <= n < 16,
{
    if n == 0 { '0' } else if n == 1 { '1' } else if n == 2 { '2' } else if n == 3 { '3' }
    else if n == 4 { '4' } else if n == 5 { '5' } else if n == 6 { '6' } else if n == 7 { '7' }
    else if n == 8 { '8' } else if n == 9 { '9' } else if n == 10 { 'a' } else if n == 11 { 'b' }
    else if n == 12 { 'c' } else if n == 13 { 'd' } else if n == 14 { 'e' } else { 'f' }
}

/// Lower-case hex encoding of a byte sequence: two digits per byte.
pub open spec fn hex_of(bytes: Seq<u8>) -> Seq<char>
    decreases bytes.len(),
{
    if bytes.len() == 0 {
        Seq::empty()
    } else {
        hex_of(bytes.drop_last()) + seq![
            hex_digit(bytes.last() as int / 16),
            hex_digit(bytes.last() as int % 16),
        ]
    }
}

fn hex_digit_exec(n: u8) -> (c: char)
    requires
        n < 16,
    ensures
        c == hex_digit(n as int),
{
    if n == 0 { '0' } else if n == 1 { '1' } else if n == 2 { '2' } else if n == 3 { '3' }
    else if n == 4 { '4' } else if n == 5 { '5' } else if n == 6 { '6' } else if n == 7 { '7' }
    else if n == 8 { '8' } else if n == 9 { '9' } else if n == 10 { 'a' } else if n == 11 { 'b' }
    else if n == 12 { 'c' } else if n == 13 { 'd' } else if n == 14 { 'e' } else { 'f' }
}

fn hex_string(bytes: &Vec<u8>) -> (r: String)
    ensures
        r@ == hex_of(bytes@),
{
    let mut out = String::new();
    let mut i: usize = 0;
    while i < bytes.len()
        invariant
            i <= bytes@.len(),
            out@ == hex_of(bytes@.subrange(0, i as int)),
        decreases bytes@.len() - i,
    {
        let b = bytes[i];
        push_char(&mut out, hex_digit_exec(b / 16));
        push_char(&mut out, hex_digit_exec(b % 16));
        proof {
            let pre = bytes@.subrange(0, i as int);
            let cur = bytes@.subrange(0, i + 1);
            assert(cur.drop_last() =~= pre);
            assert(cur.last() == bytes@[i as int]);
            assert(out@ =~= hex_of(cur));
        }
        i = i + 1;
    }
    proof {
        assert(bytes@.subrange(0, bytes@.len() as int) =~= bytes@);
    }
    out
}

// ---------------------------------------------------------------------------
// File names and links
// ---------------------------------------------------------------------------

/// The name under which a fetched artifact is stored: the hex SHA-1 digest of
/// the URL's bytes, with the inferred extension appended when there is one.
pub open spec fn file_name_spec(url_bytes: Seq<u8>, url_chars: Seq<char>) -> Seq<char> {
    match ext_spec(url_chars) {
        Some(e) => hex_of(sha1_of(url_bytes)) + e,
        None => hex_of(sha1_of(url_bytes)),
    }
}

/// The name a materialization of `content` fetched from a URL is stored
/// under. The content plays no part: the name depends on the URL alone.
pub open spec fn materialized_name(
    url_bytes: Seq<u8>,
    url_chars: Seq<char>,
    content: Seq<u8>,
) -> Seq<char> {
    file_name_spec(url_bytes, url_chars)
}

/// Compute the storage file name for a URL: hex SHA-1 of the URL string plus
/// its inferred extension, if any.
pub fn local_file_name(url: &str) -> (r: String)
    ensures
        r@ == file_name_spec(url.spec_bytes(), url@),
{
    let digest = sha1_digest(url.as_bytes());
    let mut name = hex_string(&digest);
    match get_path_ext(url) {
        Some(ext) => {
            name.append(ext);
        },
        None => {},
    }
    name
}

/// Law: the stored file name is a function of the URL alone; the fetched
/// bytes play no part, so materializing the same URL twice — even with
/// different content each time — yields the same file name.
pub proof fn lemma_idempotent_naming(
    url_bytes: Seq<u8>,
    url_chars: Seq<char>,
    content1: Seq<u8>,
    content2: Seq<u8>,
)
    ensures
        materialized_name(url_bytes, url_chars, content1) == materialized_name(
            url_bytes,
            url_chars,
            content2,
        ),
{
}

/// The public link for a stored file: the prefix, a `/` separator (unless the
/// prefix already ends in one), then the file name.
pub open spec fn link_spec(prefix: Seq<char>, name: Seq<char>) -> Seq<char> {
    if prefix.len() > 0 && prefix.last() == '/' {
        prefix + name
    } else {
        prefix + seq!['/'] + name
    }
}

/// Compose the public link recorded for a materialized URL.
pub fn compose_link(prefix: &str, name: &str) -> (r: String)
    ensures
        r@ == link_spec(prefix@, name@),
{
    let n = prefix.unicode_len();
    let mut s = prefix.to_owned();
    if n == 0 || prefix.get_char(n - 1) != '/' {
        proof {
            reveal_strlit("/");
        }
        s.append("/");
        assert(s@ =~= prefix@ + seq!['/']);
    }
    s.append(name);
    s
}

} // verus!

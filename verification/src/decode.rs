//! Turning an archived page's bytes into text, in the encoding the page declares or implies.
//!
//! Encodings are named as encoding_rs names them (`UTF-8`, `windows-1252`, ...).
use vstd::prelude::*;
use crate::pattern::{Span, groups_in, span_end, span_start, span_view, spans_view};

verus! {

/// What encoding_rs makes of `bytes` in the encoding a byte order mark at their start
/// announces: the text and the encoding's name; `None` without such a mark.
pub uninterp spec fn bom_decoded(bytes: Seq<u8>) -> Option<(Seq<char>, Seq<char>)>;

/// What encoding_rs makes of `bytes` in the encoding a charset label stands for: the text and
/// the encoding's name; `None` when encoding_rs knows no such label.
pub uninterp spec fn label_decoded(label: Seq<u8>, bytes: Seq<u8>) -> Option<(Seq<char>, Seq<char>)>;

/// What encoding_rs's `UTF_8.decode` makes of `bytes`.
pub uninterp spec fn utf8_decoded(bytes: Seq<u8>) -> Seq<char>;

/// What encoding_rs's `WINDOWS_1252.decode` makes of `bytes`.
pub uninterp spec fn windows_1252_decoded(bytes: Seq<u8>) -> Seq<char>;

/// The groups of the first match of `pattern` (a regex crate pattern over bytes) in `hay`, as
/// byte spans; `None` when it does not match or does not compile.
pub uninterp spec fn first_byte_match(pattern: Seq<char>, hay: Seq<u8>) -> Option<Seq<Option<(int, int)>>>;

pub open spec fn pair_view(r: Option<(String, String)>) -> Option<(Seq<char>, Seq<char>)> {
    match r {
        Some((a, b)) => Some((a@, b@)),
        None => None,
    }
}

/// encoding_rs's `Encoding::for_bom`, then `decode` with the encoding found: the text and the
/// encoding's name.
#[verifier::external_body]
fn decode_by_bom(bytes: &[u8]) -> (r: Option<(String, String)>)
    ensures
        pair_view(r) == bom_decoded(bytes@),
{
    let (encoding, _) = encoding_rs::Encoding::for_bom(bytes)?;
    let (text, _, _) = encoding.decode(bytes);
    Some((text.into_owned(), encoding.name().to_owned()))
}

/// encoding_rs's `Encoding::for_label`, then `decode` with the encoding found: the text and the
/// encoding's name.
#[verifier::external_body]
fn decode_by_label(label: &[u8], bytes: &[u8]) -> (r: Option<(String, String)>)
    ensures
        pair_view(r) == label_decoded(label@, bytes@),
{
    let encoding = encoding_rs::Encoding::for_label(label)?;
    let (text, _, _) = encoding.decode(bytes);
    Some((text.into_owned(), encoding.name().to_owned()))
}

/// encoding_rs's `UTF_8.decode`, and the encoding's name, `UTF-8`.
#[verifier::external_body]
fn decode_utf8(bytes: &[u8]) -> (r: (String, String))
    ensures
        r.0@ == utf8_decoded(bytes@),
        r.1@ == "UTF-8"@,
{
    let (text, _, _) = encoding_rs::UTF_8.decode(bytes);
    (text.into_owned(), encoding_rs::UTF_8.name().to_owned())
}

/// encoding_rs's `WINDOWS_1252.decode`, and the encoding's name, `windows-1252`.
#[verifier::external_body]
fn decode_windows_1252(bytes: &[u8]) -> (r: (String, String))
    ensures
        r.0@ == windows_1252_decoded(bytes@),
        r.1@ == "windows-1252"@,
{
    let (text, _, _) = encoding_rs::WINDOWS_1252.decode(bytes);
    (text.into_owned(), encoding_rs::WINDOWS_1252.name().to_owned())
}

/// How long the well-formed encoding of one scalar that `bytes[i..]` starts with is, if it
/// starts with one.
fn first_scalar(bytes: &[u8], i: usize) -> (r: Option<usize>)
    requires
        i < bytes@.len(),
    ensures
        ({
            let rest = bytes@.subrange(i as int, bytes@.len() as int);
            match r {
                Some(k) => vstd::utf8::valid_first_scalar(rest) && k == vstd::utf8::length_of_first_scalar(rest),
                None => !vstd::utf8::valid_first_scalar(rest),
            }
        }),
{
    let ghost rest = bytes@.subrange(i as int, bytes@.len() as int);
    let n = bytes.len() - i;
    let b0 = bytes[i];
    assert(rest[0] == b0);
    if b0 <= 0x7f {
        return Some(1);
    }
    if 0xc0 <= b0 && b0 <= 0xdf {
        if n < 2 {
            return None;
        }
        let b1 = bytes[i + 1];
        assert(rest[1] == b1);
        if !(0x80 <= b1 && b1 <= 0xbf) {
            return None;
        }
        let cp: u32 = (((b0 & 0x1F) as u32) << 6) | ((b1 & 0x3f) as u32);
        assert(cp == vstd::utf8::decode_first_codepoint(rest));
        if cp < 0x80 || (0xD800 <= cp && cp <= 0xDFFF) {
            return None;
        }
        return Some(2);
    }
    if 0xe0 <= b0 && b0 <= 0xef {
        if n < 3 {
            return None;
        }
        let b1 = bytes[i + 1];
        let b2 = bytes[i + 2];
        assert(rest[1] == b1 && rest[2] == b2);
        if !(0x80 <= b1 && b1 <= 0xbf && 0x80 <= b2 && b2 <= 0xbf) {
            return None;
        }
        let cp: u32 = (((b0 & 0x0F) as u32) << 12) | (((b1 & 0x3f) as u32) << 6) | ((b2 & 0x3f) as u32);
        assert(cp == vstd::utf8::decode_first_codepoint(rest));
        if cp < 0x800 || (0xD800 <= cp && cp <= 0xDFFF) {
            return None;
        }
        return Some(3);
    }
    if 0xf0 <= b0 && b0 <= 0xf7 {
        if n < 4 {
            return None;
        }
        let b1 = bytes[i + 1];
        let b2 = bytes[i + 2];
        let b3 = bytes[i + 3];
        assert(rest[1] == b1 && rest[2] == b2 && rest[3] == b3);
        if !(0x80 <= b1 && b1 <= 0xbf && 0x80 <= b2 && b2 <= 0xbf && 0x80 <= b3 && b3 <= 0xbf) {
            return None;
        }
        let cp: u32 = (((b0 & 0x07) as u32) << 18) | (((b1 & 0x3f) as u32) << 12) | (((b2 & 0x3f) as u32) << 6)
            | ((b3 & 0x3f) as u32);
        assert(cp == vstd::utf8::decode_first_codepoint(rest));
        if cp < 0x10000 || cp > 0x10ffff || (0xD800 <= cp && cp <= 0xDFFF) {
            return None;
        }
        return Some(4);
    }
    None
}

/// Whether the bytes are well-formed UTF-8 (what `str::from_utf8(bytes).is_ok()` tells).
fn is_utf8(bytes: &[u8]) -> (b: bool)
    ensures
        b == vstd::utf8::valid_utf8(bytes@),
{
    let mut i: usize = 0;
    assert(bytes@.subrange(0, 0) =~= Seq::<u8>::empty());
    while i < bytes.len()
        invariant
            i <= bytes@.len(),
            vstd::utf8::partial_valid_utf8(bytes@, i as int),
        decreases bytes.len() - i,
    {
        match first_scalar(bytes, i) {
            Some(k) => {
                proof {
                    vstd::utf8::partial_valid_utf8_extend(bytes@, i as int);
                }
                i = i + k;
            },
            None => {
                proof {
                    let rest = bytes@.subrange(i as int, bytes@.len() as int);
                    assert(rest.len() != 0);
                    assert(!vstd::utf8::valid_utf8(rest));
                    vstd::utf8::partial_valid_partial_invalid_utf8(bytes@, i as int);
                }
                return false;
            },
        }
    }
    assert(bytes@.subrange(0, bytes@.len() as int) =~= bytes@);
    true
}

/// The regex crate's `bytes::Regex::new(pattern)` and `captures(hay)`: the groups of the first
/// match, as byte spans inside `hay`.
#[verifier::external_body]
fn first_byte_captures(pattern: &str, hay: &[u8]) -> (r: Option<Vec<Option<Span>>>)
    ensures
        match r {
            Some(v) => first_byte_match(pattern@, hay@) == Some(spans_view(v@)) && groups_in(
                spans_view(v@),
                hay@.len() as int,
            ),
            None => first_byte_match(pattern@, hay@) is None,
        },
{
    let re = regex::bytes::Regex::new(pattern).ok()?;
    let caps = re.captures(hay)?;
    Some(caps.iter().map(|m| m.map(|m| (m.start(), m.end()))).collect())
}

/// How much of a page is searched for a declared charset.
pub const SNIFF_LIMIT: usize = 4096;

/// A `charset=` declaration and its label.
pub open spec fn charset_pattern() -> Seq<char> {
    "(?i)charset\\s*=\\s*[\"']?\\s*([a-z0-9_\\-:]+)"@
}

/// The label the first `SNIFF_LIMIT` bytes declare with `charset=`, if they declare one.
pub open spec fn declared_label(bytes: Seq<u8>) -> Option<Seq<u8>> {
    let head = bytes.take(
        if bytes.len() < SNIFF_LIMIT {
            bytes.len() as int
        } else {
            SNIFF_LIMIT as int
        },
    );
    match first_byte_match(charset_pattern(), head) {
        Some(groups) => if groups.len() > 1 && groups[1] is Some {
            Some(head.subrange(span_start(groups[1]), span_end(groups[1])))
        } else {
            None
        },
        None => None,
    }
}

/// A page's text and its encoding's name, in the encoding it is read in: the one its byte order
/// mark announces, else the one it declares if encoding_rs knows the label, else UTF-8 where the
/// bytes are valid UTF-8 and windows-1252 where they are not.
pub open spec fn decoded_html(bytes: Seq<u8>) -> (Seq<char>, Seq<char>) {
    let fallback = if vstd::utf8::valid_utf8(bytes) {
        (utf8_decoded(bytes), "UTF-8"@)
    } else {
        (windows_1252_decoded(bytes), "windows-1252"@)
    };
    match bom_decoded(bytes) {
        Some(r) => r,
        None => match declared_label(bytes) {
            Some(label) => match label_decoded(label, bytes) {
                Some(r) => r,
                None => fallback,
            },
            None => fallback,
        },
    }
}

fn charset_pattern_text() -> (p: &'static str)
    ensures
        p@ == charset_pattern(),
{
    "(?i)charset\\s*=\\s*[\"']?\\s*([a-z0-9_\\-:]+)"
}

/// The charset label the start of a page declares.
fn declared_label_of(bytes: &[u8]) -> (r: Option<Vec<u8>>)
    ensures
        match r {
            Some(l) => declared_label(bytes@) == Some(l@),
            None => declared_label(bytes@) is None,
        },
{
    let n = if bytes.len() < SNIFF_LIMIT {
        bytes.len()
    } else {
        SNIFF_LIMIT
    };
    let head = slice_head(bytes, n);
    let groups = match first_byte_captures(charset_pattern_text(), head.as_slice()) {
        Some(groups) => groups,
        None => return None,
    };
    if groups.len() < 2 {
        return None;
    }
    assert(spans_view(groups@)[1] == span_view(groups@[1]));
    match groups[1] {
        Some((a, b)) => Some(slice_bytes(&head, a, b)),
        None => None,
    }
}

/// A page's text, decoded in the encoding it is in, and that encoding's name.
pub fn decode_html(bytes: &[u8]) -> (r: (String, String))
    ensures
        (r.0@, r.1@) == decoded_html(bytes@),
{
    match decode_by_bom(bytes) {
        Some(r) => return r,
        None => {},
    }
    match declared_label_of(bytes) {
        Some(label) => match decode_by_label(label.as_slice(), bytes) {
            Some(r) => return r,
            None => {},
        },
        None => {},
    }
    if is_utf8(bytes) {
        decode_utf8(bytes)
    } else {
        decode_windows_1252(bytes)
    }
}

/// The first `n` bytes.
fn slice_head(bytes: &[u8], n: usize) -> (out: Vec<u8>)
    requires
        n <= bytes@.len(),
    ensures
        out@ == bytes@.take(n as int),
{
    let mut out: Vec<u8> = Vec::new();
    let mut i: usize = 0;
    while i < n
        invariant
            i <= n <= bytes@.len(),
            out@ == bytes@.take(i as int),
        decreases n - i,
    {
        out.push(bytes[i]);
        i = i + 1;
        assert(out@ =~= bytes@.take(i as int));
    }
    out
}

/// The bytes `from..to`.
fn slice_bytes(bytes: &Vec<u8>, from: usize, to: usize) -> (out: Vec<u8>)
    requires
        from <= to <= bytes@.len(),
    ensures
        out@ == bytes@.subrange(from as int, to as int),
{
    let mut out: Vec<u8> = Vec::new();
    let mut i = from;
    while i < to
        invariant
            from <= i <= to <= bytes@.len(),
            out@ == bytes@.subrange(from as int, i as int),
        decreases to - i,
    {
        out.push(bytes[i]);
        i = i + 1;
        assert(out@ =~= bytes@.subrange(from as int, i as int));
    }
    out
}

} // verus!

//! Texts held in compressed form when that is shorter.

use flate2::read::GzDecoder;
use flate2::write::GzEncoder;
use flate2::Compression;
use std::io::{Read, Write};
use vstd::prelude::*;

verus! {

broadcast use vstd::string::group_string_axioms;

/// Texts with fewer bytes than this are not worth compressing.
pub const COMPRESS_THRESHOLD: usize = 128;

/// The name for the gzip form of a text, at the default level.
pub uninterp spec fn gzipped(s: Seq<char>) -> Option<Seq<u8>>;

/// The name for the text that decompressing gzip data gives.
pub uninterp spec fn gunzipped(data: Seq<u8>) -> Seq<char>;

/// Calls `flate2::write::GzEncoder` with the default level on the UTF-8 bytes
/// of a text. The contract claims that the result is a function of the text
/// and decompresses to it. Nothing is given where the encoder reports an
/// error, which writing to a vector does not cause.
#[verifier::external_body]
fn gzip(s: &str) -> (r: Option<Vec<u8>>)
    ensures
        match r {
            Some(z) => gzipped(s@) == Some(z@) && gunzipped(z@) == s@,
            None => gzipped(s@) is None,
        },
{
    let mut enc = GzEncoder::new(Vec::new(), Compression::default());
    match enc.write_all(s.as_bytes()) {
        Ok(()) => enc.finish().ok(),
        Err(_) => None,
    }
}

/// Calls `flate2::read::GzDecoder` and reads what it gives as UTF-8 text. The
/// contract claims that the result is a function of the data.
#[verifier::external_body]
fn gunzip(data: &Vec<u8>) -> (r: String)
    ensures
        r@ == gunzipped(data@),
{
    let mut out = String::new();
    let _ = GzDecoder::new(data.as_slice()).read_to_string(&mut out);
    out
}

/// A text, compressed where that makes it shorter.
#[derive(Debug, Clone)]
pub enum Body {
    /// The text itself.
    Plain(String),
    /// Its gzip form.
    Gzip(Vec<u8>),
}

impl Body {
    /// The text that is held.
    pub open spec fn content(&self) -> Seq<char> {
        match self {
            Body::Plain(s) => s@,
            Body::Gzip(z) => gunzipped(z@),
        }
    }

    /// How many bytes are held.
    pub open spec fn size(&self) -> nat {
        match self {
            Body::Plain(s) => vstd::utf8::encode_utf8(s@).len(),
            Body::Gzip(z) => z@.len(),
        }
    }
}

/// Whether a text is held compressed: it is long enough, and its compressed
/// form has fewer bytes.
pub open spec fn worth_compressing(s: Seq<char>) -> bool {
    let n = vstd::utf8::encode_utf8(s).len();
    n >= COMPRESS_THRESHOLD && gzipped(s) is Some && gzipped(s)->0.len() < n
}

/// A text of fewer than a hundred and twenty-eight bytes stays as it is, and so
/// does one that compressing does not make shorter; every other one is held
/// compressed.
pub proof fn only_what_gets_shorter_is_compressed(s: Seq<char>)
    ensures
        vstd::utf8::encode_utf8(s).len() < 128 ==> !worth_compressing(s),
        gzipped(s) is None ==> !worth_compressing(s),
        gzipped(s) matches Some(z) ==> {
            &&& z.len() >= vstd::utf8::encode_utf8(s).len() ==> !worth_compressing(s)
            &&& z.len() < vstd::utf8::encode_utf8(s).len() && 128 <= vstd::utf8::encode_utf8(
                s,
            ).len() ==> worth_compressing(s)
        },
{
}

/// Holds a text, compressed where that makes it shorter.
pub fn compress_text(text: &str) -> (r: Body)
    ensures
        r.content() == text@,
        r is Gzip <==> worth_compressing(text@),
        r.size() <= vstd::utf8::encode_utf8(text@).len(),
        match r {
            Body::Plain(s) => s@ == text@,
            Body::Gzip(z) => gzipped(text@) == Some(z@),
        },
{
    let n = text.as_bytes().len();
    if n < COMPRESS_THRESHOLD {
        return Body::Plain(text.to_string());
    }
    match gzip(text) {
        Some(z) => if z.len() < n {
            Body::Gzip(z)
        } else {
            Body::Plain(text.to_string())
        },
        None => Body::Plain(text.to_string()),
    }
}

impl Body {
    /// The text.
    pub fn text(&self) -> (r: String)
        ensures
            r@ == self.content(),
    {
        match self {
            Body::Plain(s) => s.clone(),
            Body::Gzip(z) => gunzip(z),
        }
    }

    /// How many bytes are held.
    pub fn stored_bytes(&self) -> (r: usize)
        ensures
            r == self.size(),
    {
        match self {
            Body::Plain(s) => s.as_str().as_bytes().len(),
            Body::Gzip(z) => z.len(),
        }
    }

    /// Whether the text is held compressed.
    pub fn is_compressed(&self) -> (r: bool)
        ensures
            r == (self is Gzip),
    {
        match self {
            Body::Plain(_) => false,
            Body::Gzip(_) => true,
        }
    }
}

} // verus!

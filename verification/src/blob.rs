//! Blob content and its decoding.
//!
//! The remote blob endpoint serves base64 with embedded line breaks.  The
//! decoder strips ASCII whitespace, decodes the remainder, and interprets
//! the bytes as UTF-8 with lossy replacement: invalid base64 is fatal for
//! the file, invalid UTF-8 never is.

use vstd::prelude::*;
use base64::Engine;

use crate::error::DecodeError;
use crate::models::{BlobsModel, EncodingType};

verus! {

/// What the standard base64 alphabet (with padding) decodes `encoded` to;
/// none when `encoded` is not valid base64.
pub uninterp spec fn base64_decoded(encoded: Seq<u8>) -> Option<Seq<u8>>;

/// The characters `bytes` decode to as UTF-8, with every invalid sequence
/// replaced.
pub uninterp spec fn lossy_utf8_of(bytes: Seq<u8>) -> Seq<char>;

/// ASCII whitespace, as the decoder strips it before decoding.
pub open spec fn spec_is_ws(b: u8) -> bool {
    b == 9 || b == 10 || b == 11 || b == 12 || b == 13 || b == 32
}

/// `bytes` with every ASCII whitespace byte removed, order kept.
pub open spec fn strip_ws(bytes: Seq<u8>) -> Seq<u8>
    decreases bytes.len(),
{
    if bytes.len() == 0 {
        Seq::empty()
    } else {
        let prefix = strip_ws(bytes.drop_last());
        if spec_is_ws(bytes.last()) {
            prefix
        } else {
            prefix.push(bytes.last())
        }
    }
}

/// What decoding a base64 body yields: the lossily decoded characters of the
/// decoded bytes, or the exact rejection of invalid base64.
pub open spec fn spec_decode_base64(content: Seq<char>) -> Result<Seq<char>, DecodeError> {
    let stripped = strip_ws(vstd::utf8::encode_utf8(content));
    match base64_decoded(stripped) {
        None => Err(DecodeError::InvalidBase64),
        Some(bytes) => Ok(lossy_utf8_of(bytes)),
    }
}

/// Relies on `base64::engine::general_purpose::STANDARD.decode`: the
/// standard alphabet with padding, rejecting exactly the inputs that are not
/// valid base64.
#[verifier::external_body]
fn b64_decode(encoded: &Vec<u8>) -> (r: Option<Vec<u8>>)
    ensures
        (r is Some) == (base64_decoded(encoded@) is Some),
        r matches Some(v) ==> Some(v@) == base64_decoded(encoded@),
{
    base64::engine::general_purpose::STANDARD.decode(encoded).ok()
}

/// Relies on `String::from_utf8_lossy`: the result depends on the bytes
/// alone; no bytes decode to no characters.
#[verifier::external_body]
fn utf8_lossy(bytes: &Vec<u8>) -> (r: String)
    ensures
        r@ == lossy_utf8_of(bytes@),
        bytes@.len() == 0 ==> r@.len() == 0,
{
    String::from_utf8_lossy(bytes).into_owned()
}

/// One fetched file: its path in the tree and its decoded content.
#[derive(Debug, Clone, PartialEq, Eq)]
pub struct GitHubBlob {
    pub path: String,
    pub content: String,
}

/// The mathematical value of a blob.
pub ghost struct GitHubBlobV {
    pub path: Seq<char>,
    pub content: Seq<char>,
}

impl View for GitHubBlob {
    type V = GitHubBlobV;

    open spec fn view(&self) -> GitHubBlobV {
        GitHubBlobV { path: self.path@, content: self.content@ }
    }
}

/// The views of a sequence of blobs.
pub open spec fn view_blobs(v: Seq<GitHubBlob>) -> Seq<GitHubBlobV> {
    v.map_values(|b: GitHubBlob| b@)
}

impl GitHubBlob {
    pub fn new(path: String, content: String) -> (r: GitHubBlob)
        ensures
            r@.path == path@,
            r@.content == content@,
    {
        GitHubBlob { path, content }
    }

    /// Decode a blob body fetched from the blob endpoint into a blob of this
    /// path.
    pub fn from_model(path: String, model: &BlobsModel) -> (r: Result<GitHubBlob, DecodeError>)
        ensures
            r matches Ok(b) ==> b@.path == path@
                && spec_decode_base64(model.content@) == Ok::<Seq<char>, DecodeError>(b@.content),
            r matches Err(e) ==> spec_decode_base64(model.content@) == Err::<Seq<char>, DecodeError>(e),
    {
        let content = BlobsModelDecoder::new(model).decode()?;
        Ok(GitHubBlob::new(path, content))
    }
}

/// Decodes one blob body according to the encoding it declares.
pub struct BlobsModelDecoder<'a> {
    pub model: &'a BlobsModel,
}

impl<'a> BlobsModelDecoder<'a> {
    pub fn new(model: &'a BlobsModel) -> (r: BlobsModelDecoder<'a>)
        ensures
            r.model == model,
    {
        BlobsModelDecoder { model }
    }

    /// Decode under the declared encoding.  The remote serves base64 only.
    pub fn decode(&self) -> (r: Result<String, DecodeError>)
        ensures
            r matches Ok(s) ==> spec_decode_base64(self.model.content@) == Ok::<Seq<char>, DecodeError>(s@),
            r matches Err(e) ==> spec_decode_base64(self.model.content@) == Err::<Seq<char>, DecodeError>(e),
    {
        match self.model.encoding {
            EncodingType::Base64 => self.decode_base64(),
        }
    }

    /// Strip ASCII whitespace, decode the base64 remainder, and read the
    /// bytes as UTF-8 with lossy replacement.
    pub fn decode_base64(&self) -> (r: Result<String, DecodeError>)
        ensures
            r matches Ok(s) ==> spec_decode_base64(self.model.content@) == Ok::<Seq<char>, DecodeError>(s@),
            r matches Err(e) ==> spec_decode_base64(self.model.content@) == Err::<Seq<char>, DecodeError>(e),
    {
        let bytes: &[u8] = self.model.content.as_str().as_bytes();
        let n = bytes.len();
        let mut encoded: Vec<u8> = Vec::new();
        let mut i: usize = 0;
        while i < n
            invariant
                i <= n,
                n == bytes@.len(),
                encoded@ == strip_ws(bytes@.take(i as int)),
            decreases n - i,
        {
            let b = bytes[i];
            proof {
                assert(bytes@.take(i + 1).drop_last() =~= bytes@.take(i as int));
                assert(bytes@.take(i + 1).last() == bytes@[i as int]);
            }
            if !(b == 9 || b == 10 || b == 11 || b == 12 || b == 13 || b == 32) {
                encoded.push(b);
            }
            i = i + 1;
        }
        proof {
            assert(bytes@.take(n as int) =~= bytes@);
        }
        match b64_decode(&encoded) {
            None => Err(DecodeError::InvalidBase64),
            Some(decoded) => Ok(utf8_lossy(&decoded)),
        }
    }
}

} // verus!

//! Files as they are stored: plain or gzipped, and as text.

use vstd::prelude::*;
use vstd::utf8::{decode_utf8, valid_utf8};

verus! {

/// The bytes of a file, and how they are packed.
pub enum Stored {
    /// The file itself.
    Plain(Vec<u8>),
    /// Its gzipped form, which stands beside it with `.gz` at the end of its name.
    Gzip(Vec<u8>),
}

/// What the first member of gzipped bytes unpacks to, if it unpacks.
pub uninterp spec fn gunzipped(bytes: Seq<u8>) -> Option<Seq<u8>>;

/// Unpack gzipped bytes.
///
/// Reads all that `flate2::read::GzDecoder` gives for the bytes. Its result, or that it fails, is
/// a function of the bytes, named [`gunzipped`].
#[verifier::external_body]
fn gunzip(bytes: &[u8]) -> (r: Option<Vec<u8>>)
    ensures
        match r {
            Some(v) => gunzipped(bytes@) == Some(v@),
            None => gunzipped(bytes@) is None,
        },
{
    let mut out = Vec::new();
    let mut decoder = flate2::read::GzDecoder::new(bytes);
    match std::io::Read::read_to_end(&mut decoder, &mut out) {
        Ok(_) => Some(out),
        Err(_) => None,
    }
}

/// Bytes as text.
///
/// Calls `String::from_utf8`, which gives the text that bytes encode in UTF-8, and fails on bytes
/// that are no UTF-8.
#[verifier::external_body]
pub(crate) fn utf8(bytes: Vec<u8>) -> (r: Option<String>)
    ensures
        match r {
            Some(s) => valid_utf8(bytes@) && s@ == decode_utf8(bytes@),
            None => !valid_utf8(bytes@),
        },
{
    String::from_utf8(bytes).ok()
}

/// What a file holds, once it is unpacked.
pub open spec fn unpacked(s: Stored) -> Option<Seq<u8>> {
    match s {
        Stored::Plain(v) => Some(v@),
        Stored::Gzip(v) => gunzipped(v@),
    }
}

/// The name under which the gzipped form of a file stands.
pub fn gz_name(path: &str) -> (r: String)
    ensures
        r@ == path@ + ".gz"@,
{
    let mut name = path.to_owned();
    proof {
        reveal_strlit(".gz");
    }
    name.push('.');
    name.push('g');
    name.push('z');
    assert(name@ =~= path@ + ".gz"@);
    name
}

/// The bytes of a file, unpacked if it is gzipped.
pub fn read_maybe_gz(s: Stored) -> (r: Option<Vec<u8>>)
    ensures
        match r {
            Some(v) => unpacked(s) == Some(v@),
            None => unpacked(s) is None,
        },
{
    match s {
        Stored::Plain(v) => Some(v),
        Stored::Gzip(v) => gunzip(v.as_slice()),
    }
}

/// A gzipped file is read as the file that it unpacks to.
pub proof fn law_transparent(packed: Vec<u8>, plain: Vec<u8>)
    requires
        gunzipped(packed@) == Some(plain@),
    ensures
        unpacked(Stored::Gzip(packed)) == unpacked(Stored::Plain(plain)),
{
}

} // verus!

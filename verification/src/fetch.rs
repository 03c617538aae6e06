//! What fetching the log over ssh computes: whether a host is set, the remote
//! command, and the decompression of what it sends back. Running ssh is left to
//! the caller.

use crate::text::{chars_of, trim, trim_range};
use std::io::Read;
use vstd::prelude::*;

verus! {

/// Whether an ssh host is configured: it holds more than whitespace.
pub fn host_configured(host: &str) -> (r: bool)
    ensures
        r == (trim(host@).len() > 0),
{
    let c = chars_of(host);
    let t = trim_range(&c, 0, c.len());
    assert(c@.subrange(0, c@.len() as int) =~= c@);
    t.len() > 0
}

/// The command run on the host: the log, gzip-compressed to standard output.
pub fn remote_command(remote_log: &str) -> (r: String)
    ensures
        r@ == "gzip -c "@ + remote_log@,
{
    let mut out = String::from_str("gzip -c ");
    out.append(remote_log);
    out
}

/// What flate2's `GzDecoder` reading these bytes to a `String` gives: the
/// decompressed text, or `None` where the bytes are not gzip or the text is not
/// UTF-8.
pub uninterp spec fn gunzip_text(bytes: Seq<u8>) -> Option<Seq<char>>;

/// flate2's `GzDecoder::new` and `Read::read_to_string`; the result is named,
/// not stated.
#[verifier::external_body]
fn gunzip(bytes: &[u8]) -> (r: Option<String>)
    ensures
        match r {
            Some(s) => gunzip_text(bytes@) == Some(s@),
            None => gunzip_text(bytes@) is None,
        },
{
    let mut s = String::new();
    match flate2::read::GzDecoder::new(bytes).read_to_string(&mut s) {
        Ok(_) => Some(s),
        Err(_) => None,
    }
}

/// The log text in a gzip stream fetched from the host, or `None` where it
/// does not decompress to text.
pub fn decode_fetched(bytes: &Vec<u8>) -> (r: Option<String>)
    ensures
        match r {
            Some(s) => gunzip_text(bytes@) == Some(s@),
            None => gunzip_text(bytes@) is None,
        },
{
    gunzip(bytes.as_slice())
}

} // verus!
